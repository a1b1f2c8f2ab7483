use vstd::prelude::*;

use crate::record::{
    all_clean, record_clean, text_clean, Commands, CommandsView, Workspace, WorkspaceView,
};

verus! {

// ---------------------------------------------------------------------------
// The record file format.
//
// A record is stored as lines of `key = value`. The value of `path` is a
// double-quoted string; the values of `tabs`, `commands.local`,
// `commands.external` and `commands.background` are bracketed lists of
// double-quoted strings. Blank lines and lines starting with `#` are
// skipped; lines with an unrecognized key are ignored, so a file written
// by a later version still loads. A missing optional key means the empty
// list; a missing or non-string `path` is an error.
//
// The spec functions below are the authoritative definition of the
// format; the executable codec is proved equal to them, and the
// round-trip law is proved about them.
// ---------------------------------------------------------------------------

/// Why a record text failed to decode.
#[derive(PartialEq, Eq, Structural, Clone, Copy, Debug)]
pub enum DecodeError {
    /// No `path` key was present.
    MissingPath,
    /// The numbered line (1-based) is not a well-formed line.
    Malformed { line: usize },
}

impl DecodeError {
    /// A short message naming the failure.
    pub fn describe(&self) -> (r: String)
        ensures
            r@ == match self {
                DecodeError::MissingPath => "the record has no 'path' entry"@,
                DecodeError::Malformed { .. } => "the record has a malformed line"@,
            },
    {
        match self {
            DecodeError::MissingPath => "the record has no 'path' entry".to_owned(),
            DecodeError::Malformed { line: _ } => "the record has a malformed line".to_owned(),
        }
    }
}

/// Horizontal whitespace the parser skips inside a line.
pub open spec fn is_ws(c: char) -> bool {
    c == ' ' || c == '\t' || c == '\r'
}

/// Characters a key may consist of.
pub open spec fn is_key_char(c: char) -> bool {
    ('a' <= c && c <= 'z') || ('A' <= c && c <= 'Z') || ('0' <= c && c <= '9') || c == '_' || c
        == '-' || c == '.'
}

/// First position at or after `i` holding a non-whitespace character
/// (or the end of `s`).
pub open spec fn skip_ws(s: Seq<char>, i: int) -> int
    decreases s.len() - i,
{
    if 0 <= i < s.len() && is_ws(s[i]) {
        skip_ws(s, i + 1)
    } else {
        i
    }
}

/// First position at or after `i` holding the character `c`, if any.
pub open spec fn scan_to(s: Seq<char>, i: int, c: char) -> Option<int>
    decreases s.len() - i,
{
    if !(0 <= i < s.len()) {
        None
    } else if s[i] == c {
        Some(i)
    } else {
        scan_to(s, i + 1, c)
    }
}

/// First position at or after `i` holding a non-key character (or the
/// end of `s`): the end of a key starting at `i`.
pub open spec fn key_end(s: Seq<char>, i: int) -> int
    decreases s.len() - i,
{
    if 0 <= i < s.len() && is_key_char(s[i]) {
        key_end(s, i + 1)
    } else {
        i
    }
}

pub proof fn lemma_skip_ws(s: Seq<char>, i: int)
    requires
        0 <= i <= s.len(),
    ensures
        i <= skip_ws(s, i) <= s.len(),
        forall|k: int| i <= k < skip_ws(s, i) ==> is_ws(s[k]),
        skip_ws(s, i) < s.len() ==> !is_ws(s[skip_ws(s, i)]),
    decreases s.len() - i,
{
    if i < s.len() && is_ws(s[i]) {
        lemma_skip_ws(s, i + 1);
    }
}

/// `skip_ws` lands exactly on `j` when everything before `j` is
/// whitespace and `j` is not.
pub proof fn lemma_skip_ws_eq(s: Seq<char>, i: int, j: int)
    requires
        0 <= i <= j <= s.len(),
        forall|k: int| i <= k < j ==> is_ws(s[k]),
        j < s.len() ==> !is_ws(s[j]),
    ensures
        skip_ws(s, i) == j,
{
    lemma_skip_ws(s, i);
}

pub proof fn lemma_scan_to(s: Seq<char>, i: int, c: char)
    requires
        0 <= i <= s.len(),
    ensures
        match scan_to(s, i, c) {
            Some(j) => i <= j < s.len() && s[j] == c && forall|k: int| i <= k < j ==> s[k] != c,
            None => forall|k: int| i <= k < s.len() ==> s[k] != c,
        },
    decreases s.len() - i,
{
    if i < s.len() && s[i] != c {
        lemma_scan_to(s, i + 1, c);
    }
}

/// `scan_to` finds exactly `j` when `j` holds `c` and nothing before
/// it does.
pub proof fn lemma_scan_to_eq(s: Seq<char>, i: int, c: char, j: int)
    requires
        0 <= i <= j < s.len(),
        s[j] == c,
        forall|k: int| i <= k < j ==> s[k] != c,
    ensures
        scan_to(s, i, c) == Some(j),
{
    lemma_scan_to(s, i, c);
}

pub proof fn lemma_key_end(s: Seq<char>, i: int)
    requires
        0 <= i <= s.len(),
    ensures
        i <= key_end(s, i) <= s.len(),
        forall|k: int| i <= k < key_end(s, i) ==> is_key_char(s[k]),
        key_end(s, i) < s.len() ==> !is_key_char(s[key_end(s, i)]),
    decreases s.len() - i,
{
    if i < s.len() && is_key_char(s[i]) {
        lemma_key_end(s, i + 1);
    }
}

pub proof fn lemma_key_end_eq(s: Seq<char>, i: int, j: int)
    requires
        0 <= i <= j <= s.len(),
        forall|k: int| i <= k < j ==> is_key_char(s[k]),
        j < s.len() ==> !is_key_char(s[j]),
    ensures
        key_end(s, i) == j,
{
    lemma_key_end(s, i);
}

/// A double-quoted string starting at `i`: its contents and the
/// position just past the closing quote.
pub open spec fn parse_qstring(s: Seq<char>, i: int) -> Option<(Seq<char>, int)> {
    if 0 <= i < s.len() && s[i] == '"' {
        match scan_to(s, i + 1, '"') {
            Some(j) => Some((s.subrange(i + 1, j), j + 1)),
            None => None,
        }
    } else {
        None
    }
}

/// The items of a non-empty bracketed list, starting at the opening
/// quote of the next item; `acc` holds the items already read. Returns
/// the items and the position just past the closing bracket. A
/// trailing comma before the bracket is allowed.
pub open spec fn parse_items(s: Seq<char>, i: int, acc: Seq<Seq<char>>) -> Option<
    (Seq<Seq<char>>, int),
>
    decreases s.len() - i,
{
    match parse_qstring(s, i) {
        None => None,
        Some((v, j)) => {
            let k = skip_ws(s, j);
            if 0 <= k < s.len() && s[k] == ']' {
                Some((acc.push(v), k + 1))
            } else if 0 <= k < s.len() && s[k] == ',' {
                let m = skip_ws(s, k + 1);
                if 0 <= m < s.len() && s[m] == ']' {
                    Some((acc.push(v), m + 1))
                } else {
                    proof {
                        lemma_scan_to(s, i + 1, '"');
                        lemma_skip_ws(s, j);
                        lemma_skip_ws(s, k + 1);
                    }
                    parse_items(s, m, acc.push(v))
                }
            } else {
                None
            }
        },
    }
}

/// A bracketed list of double-quoted strings starting at `i`.
pub open spec fn parse_array(s: Seq<char>, i: int) -> Option<(Seq<Seq<char>>, int)> {
    if 0 <= i < s.len() && s[i] == '[' {
        let j = skip_ws(s, i + 1);
        if 0 <= j < s.len() && s[j] == ']' {
            Some((Seq::empty(), j + 1))
        } else {
            parse_items(s, j, Seq::empty())
        }
    } else {
        None
    }
}

/// What one line of a record file means.
pub enum LineCmd {
    /// Blank, or a comment.
    Blank,
    /// `path = "..."`.
    SetPath(Seq<char>),
    /// `tabs = [...]`.
    SetTabs(Seq<Seq<char>>),
    /// `commands.local = [...]`.
    SetLocal(Seq<Seq<char>>),
    /// `commands.external = [...]`.
    SetExternal(Seq<Seq<char>>),
    /// `commands.background = [...]`.
    SetBackground(Seq<Seq<char>>),
    /// A well-formed line with a key this version does not know.
    Ignore,
    /// Not a well-formed line.
    Bad,
}

/// A parsed string value must fill the line to its end (trailing
/// whitespace aside).
pub open spec fn qstring_to_line_end(l: Seq<char>, r: Option<(Seq<char>, int)>) -> Option<
    Seq<char>,
> {
    match r {
        Some((v, p)) => {
            if 0 <= p <= l.len() && skip_ws(l, p) == l.len() {
                Some(v)
            } else {
                None
            }
        },
        None => None,
    }
}

/// A parsed list value must fill the line to its end (trailing
/// whitespace aside).
pub open spec fn array_to_line_end(l: Seq<char>, r: Option<(Seq<Seq<char>>, int)>) -> Option<
    Seq<Seq<char>>,
> {
    match r {
        Some((vs, p)) => {
            if 0 <= p <= l.len() && skip_ws(l, p) == l.len() {
                Some(vs)
            } else {
                None
            }
        },
        None => None,
    }
}

/// The meaning of one line.
pub open spec fn parse_line(l: Seq<char>) -> LineCmd {
    let i = skip_ws(l, 0);
    if !(0 <= i < l.len()) {
        LineCmd::Blank
    } else if l[i] == '#' {
        LineCmd::Blank
    } else {
        let j = key_end(l, i);
        if j == i {
            LineCmd::Bad
        } else {
            let key = l.subrange(i, j);
            let k = skip_ws(l, j);
            if !(0 <= k < l.len() && l[k] == '=') {
                LineCmd::Bad
            } else {
                let m = skip_ws(l, k + 1);
                if key == "path"@ {
                    match qstring_to_line_end(l, parse_qstring(l, m)) {
                        Some(v) => LineCmd::SetPath(v),
                        None => LineCmd::Bad,
                    }
                } else if key == "tabs"@ {
                    match array_to_line_end(l, parse_array(l, m)) {
                        Some(vs) => LineCmd::SetTabs(vs),
                        None => LineCmd::Bad,
                    }
                } else if key == "commands.local"@ {
                    match array_to_line_end(l, parse_array(l, m)) {
                        Some(vs) => LineCmd::SetLocal(vs),
                        None => LineCmd::Bad,
                    }
                } else if key == "commands.external"@ {
                    match array_to_line_end(l, parse_array(l, m)) {
                        Some(vs) => LineCmd::SetExternal(vs),
                        None => LineCmd::Bad,
                    }
                } else if key == "commands.background"@ {
                    match array_to_line_end(l, parse_array(l, m)) {
                        Some(vs) => LineCmd::SetBackground(vs),
                        None => LineCmd::Bad,
                    }
                } else {
                    LineCmd::Ignore
                }
            }
        }
    }
}

/// A record in the making: which keys have been seen so far, and with
/// what values.
#[verifier::ext_equal]
pub struct PartialView {
    pub path: Option<Seq<char>>,
    pub tabs: Option<Seq<Seq<char>>>,
    pub local: Option<Seq<Seq<char>>>,
    pub external: Option<Seq<Seq<char>>>,
    pub background: Option<Seq<Seq<char>>>,
}

pub open spec fn empty_partial() -> PartialView {
    PartialView { path: None, tabs: None, local: None, external: None, background: None }
}

/// One line applied to a partial record; a later occurrence of a key
/// overrides an earlier one.
pub open spec fn apply_line(acc: PartialView, l: Seq<char>) -> Option<PartialView> {
    match parse_line(l) {
        LineCmd::Blank => Some(acc),
        LineCmd::Ignore => Some(acc),
        LineCmd::Bad => None,
        LineCmd::SetPath(v) => Some(PartialView { path: Some(v), ..acc }),
        LineCmd::SetTabs(vs) => Some(PartialView { tabs: Some(vs), ..acc }),
        LineCmd::SetLocal(vs) => Some(PartialView { local: Some(vs), ..acc }),
        LineCmd::SetExternal(vs) => Some(PartialView { external: Some(vs), ..acc }),
        LineCmd::SetBackground(vs) => Some(PartialView { background: Some(vs), ..acc }),
    }
}

/// All lines applied in order; `ln` is the 1-based number of the first
/// line, and the number of the offending line comes back on failure.
pub open spec fn parse_lines(ls: Seq<Seq<char>>, acc: PartialView, ln: int) -> Result<
    PartialView,
    int,
>
    decreases ls.len(),
{
    if ls.len() == 0 {
        Ok(acc)
    } else {
        match apply_line(acc, ls[0]) {
            None => Err(ln),
            Some(a2) => parse_lines(ls.drop_first(), a2, ln + 1),
        }
    }
}

/// The lines of a text: split at each line break; a final fragment
/// without a trailing break is a line of its own.
pub open spec fn split_lines(t: Seq<char>) -> Seq<Seq<char>>
    decreases t.len(),
{
    if t.len() == 0 {
        Seq::empty()
    } else {
        match scan_to(t, 0, '\n') {
            None => seq![t],
            Some(j) => {
                proof {
                    lemma_scan_to(t, 0, '\n');
                }
                seq![t.subrange(0, j)] + split_lines(t.subrange(j + 1, t.len() as int))
            },
        }
    }
}

pub open spec fn or_empty(o: Option<Seq<Seq<char>>>) -> Seq<Seq<char>> {
    match o {
        Some(vs) => vs,
        None => Seq::empty(),
    }
}

/// The record a finished partial stands for: `path` is required, every
/// other key defaults to the empty list.
pub open spec fn finish_partial(acc: PartialView) -> Result<WorkspaceView, DecodeError> {
    match acc.path {
        None => Err(DecodeError::MissingPath),
        Some(p) => Ok(
            WorkspaceView {
                path: p,
                tabs: or_empty(acc.tabs),
                commands: CommandsView {
                    local: or_empty(acc.local),
                    external: or_empty(acc.external),
                    background: or_empty(acc.background),
                },
            },
        ),
    }
}

/// The meaning of a whole record text.
pub open spec fn spec_decode(t: Seq<char>) -> Result<WorkspaceView, DecodeError> {
    match parse_lines(split_lines(t), empty_partial(), 1) {
        Err(ln) => Err(DecodeError::Malformed { line: ln as usize }),
        Ok(acc) => finish_partial(acc),
    }
}

// ---------------------------------------------------------------------------
// Encoding.
// ---------------------------------------------------------------------------

/// `s` wrapped in double quotes.
pub open spec fn enc_qstring(s: Seq<char>) -> Seq<char> {
    seq!['"'] + s + seq!['"']
}

/// The items of a list from position `i` on, comma-separated.
pub open spec fn enc_items(vs: Seq<Seq<char>>, i: int) -> Seq<char>
    decreases vs.len() - i,
{
    if !(0 <= i < vs.len()) {
        Seq::empty()
    } else if i == vs.len() - 1 {
        enc_qstring(vs[i])
    } else {
        enc_qstring(vs[i]) + seq![',', ' '] + enc_items(vs, i + 1)
    }
}

/// A bracketed list.
pub open spec fn enc_array(vs: Seq<Seq<char>>) -> Seq<char> {
    seq!['['] + enc_items(vs, 0) + seq![']']
}

/// One `key = value` line.
pub open spec fn enc_kv(key: Seq<char>, val: Seq<char>) -> Seq<char> {
    key + seq![' ', '=', ' '] + val
}

/// The lines a record encodes to: `path` always, each list only when
/// non-empty, so a hand-written file stays minimal.
pub open spec fn enc_lines(w: WorkspaceView) -> Seq<Seq<char>> {
    seq![enc_kv("path"@, enc_qstring(w.path))] + (if w.tabs.len() == 0 {
        Seq::<Seq<char>>::empty()
    } else {
        seq![enc_kv("tabs"@, enc_array(w.tabs))]
    }) + (if w.commands.local.len() == 0 {
        Seq::<Seq<char>>::empty()
    } else {
        seq![enc_kv("commands.local"@, enc_array(w.commands.local))]
    }) + (if w.commands.external.len() == 0 {
        Seq::<Seq<char>>::empty()
    } else {
        seq![enc_kv("commands.external"@, enc_array(w.commands.external))]
    }) + (if w.commands.background.len() == 0 {
        Seq::<Seq<char>>::empty()
    } else {
        seq![enc_kv("commands.background"@, enc_array(w.commands.background))]
    })
}

/// Lines joined with a line break after each.
pub open spec fn join_lines(ls: Seq<Seq<char>>) -> Seq<char>
    decreases ls.len(),
{
    if ls.len() == 0 {
        Seq::empty()
    } else {
        ls[0] + seq!['\n'] + join_lines(ls.drop_first())
    }
}

/// The text a record encodes to.
pub open spec fn spec_encode(w: WorkspaceView) -> Seq<char> {
    join_lines(enc_lines(w))
}

// ---------------------------------------------------------------------------
// The executable codec, proved equal to the spec-level definition.
// ---------------------------------------------------------------------------

/// First position at or after `from` holding `c`, by a linear scan.
fn find_char(l: &str, from: usize, c: char) -> (r: Option<usize>)
    requires
        from <= l@.len(),
    ensures
        match r {
            Some(j) => scan_to(l@, from as int, c) == Some(j as int) && from <= j < l@.len(),
            None => scan_to(l@, from as int, c) is None,
        },
{
    let n = l.unicode_len();
    let mut cur = from;
    while cur < n
        invariant
            from <= cur <= n,
            n == l@.len(),
            scan_to(l@, from as int, c) == scan_to(l@, cur as int, c),
        decreases n - cur,
    {
        if l.get_char(cur) == c {
            return Some(cur);
        }
        cur = cur + 1;
    }
    None
}

/// First position at or after `from` holding a non-whitespace
/// character.
fn skip_ws_exec(l: &str, from: usize) -> (r: usize)
    requires
        from <= l@.len(),
    ensures
        r as int == skip_ws(l@, from as int),
        from <= r <= l@.len(),
{
    let n = l.unicode_len();
    let mut cur = from;
    while cur < n
        invariant
            from <= cur <= n,
            n == l@.len(),
            skip_ws(l@, from as int) == skip_ws(l@, cur as int),
        decreases n - cur,
    {
        let ch = l.get_char(cur);
        if !(ch == ' ' || ch == '\t' || ch == '\r') {
            return cur;
        }
        cur = cur + 1;
    }
    cur
}

/// The end of the key starting at `from`.
fn key_end_exec(l: &str, from: usize) -> (r: usize)
    requires
        from <= l@.len(),
    ensures
        r as int == key_end(l@, from as int),
        from <= r <= l@.len(),
{
    let n = l.unicode_len();
    let mut cur = from;
    while cur < n
        invariant
            from <= cur <= n,
            n == l@.len(),
            key_end(l@, from as int) == key_end(l@, cur as int),
        decreases n - cur,
    {
        let ch = l.get_char(cur);
        let is_key = ('a' <= ch && ch <= 'z') || ('A' <= ch && ch <= 'Z') || ('0' <= ch && ch
            <= '9') || ch == '_' || ch == '-' || ch == '.';
        if !is_key {
            return cur;
        }
        cur = cur + 1;
    }
    cur
}

/// Character-for-character string equality.
pub fn str_eq(a: &str, b: &str) -> (r: bool)
    ensures
        r == (a@ == b@),
{
    let na = a.unicode_len();
    let nb = b.unicode_len();
    if na != nb {
        return false;
    }
    let mut i: usize = 0;
    while i < na
        invariant
            i <= na,
            na == a@.len(),
            na == b@.len(),
            forall|k: int| 0 <= k < i ==> a@[k] == b@[k],
        decreases na - i,
    {
        if a.get_char(i) != b.get_char(i) {
            return false;
        }
        i = i + 1;
    }
    proof {
        assert(a@ =~= b@);
    }
    true
}

/// A double-quoted string starting at `i`.
fn parse_qstring_exec(l: &str, i: usize) -> (r: Option<(String, usize)>)
    requires
        i <= l@.len(),
    ensures
        match r {
            Some(v) => parse_qstring(l@, i as int) == Some((v.0@, v.1 as int)) && i < v.1
                <= l@.len(),
            None => parse_qstring(l@, i as int) is None,
        },
{
    let n = l.unicode_len();
    if i >= n || l.get_char(i) != '"' {
        return None;
    }
    match find_char(l, i + 1, '"') {
        None => None,
        Some(j) => {
            let v = l.substring_char(i + 1, j).to_owned();
            Some((v, j + 1))
        },
    }
}

/// The items of a non-empty bracketed list starting at `i`, appended
/// to `out`; returns the position just past the closing bracket.
fn parse_items_exec(l: &str, i: usize, out: &mut Vec<String>) -> (r: Option<usize>)
    requires
        i <= l@.len(),
    ensures
        match r {
            Some(p) => parse_items(l@, i as int, old(out).deep_view()) == Some(
                (final(out).deep_view(), p as int),
            ) && p <= l@.len(),
            None => parse_items(l@, i as int, old(out).deep_view()) is None,
        },
{
    let n = l.unicode_len();
    let mut cur = i;
    loop
        invariant
            cur <= n,
            n == l@.len(),
            parse_items(l@, i as int, old(out).deep_view()) == parse_items(
                l@,
                cur as int,
                out.deep_view(),
            ),
        decreases n - cur,
    {
        let parsed = parse_qstring_exec(l, cur);
        match parsed {
            None => {
                return None;
            },
            Some((v, j)) => {
                let ghost prev = out.deep_view();
                out.push(v);
                proof {
                    assert(out.deep_view() =~= prev.push(v@));
                }
                let k = skip_ws_exec(l, j);
                if k < n && l.get_char(k) == ']' {
                    return Some(k + 1);
                } else if k < n && l.get_char(k) == ',' {
                    let m = skip_ws_exec(l, k + 1);
                    if m < n && l.get_char(m) == ']' {
                        return Some(m + 1);
                    }
                    cur = m;
                } else {
                    return None;
                }
            },
        }
    }
}

/// A bracketed list starting at `i`.
fn parse_array_exec(l: &str, i: usize) -> (r: Option<(Vec<String>, usize)>)
    requires
        i <= l@.len(),
    ensures
        match r {
            Some(v) => parse_array(l@, i as int) == Some((v.0.deep_view(), v.1 as int)) && v.1
                <= l@.len(),
            None => parse_array(l@, i as int) is None,
        },
{
    let n = l.unicode_len();
    if i >= n || l.get_char(i) != '[' {
        return None;
    }
    let j = skip_ws_exec(l, i + 1);
    let mut items: Vec<String> = Vec::new();
    proof {
        assert(items.deep_view() =~= Seq::<Seq<char>>::empty());
    }
    if j < n && l.get_char(j) == ']' {
        return Some((items, j + 1));
    }
    match parse_items_exec(l, j, &mut items) {
        None => None,
        Some(p) => Some((items, p)),
    }
}

/// A record in the making.
struct Partial {
    path: Option<String>,
    tabs: Option<Vec<String>>,
    local: Option<Vec<String>>,
    external: Option<Vec<String>>,
    background: Option<Vec<String>>,
}

impl View for Partial {
    type V = PartialView;

    closed spec fn view(&self) -> PartialView {
        PartialView {
            path: self.path.deep_view(),
            tabs: self.tabs.deep_view(),
            local: self.local.deep_view(),
            external: self.external.deep_view(),
            background: self.background.deep_view(),
        }
    }
}

/// One line folded into the partial record; `false` means the line is
/// malformed, with the record left as it was.
fn apply_line_exec(acc: &mut Partial, l: &str) -> (r: bool)
    ensures
        r == (apply_line(old(acc)@, l@) is Some),
        r ==> apply_line(old(acc)@, l@) == Some(final(acc)@),
        !r ==> final(acc)@ == old(acc)@,
{
    let n = l.unicode_len();
    let i = skip_ws_exec(l, 0);
    if i >= n {
        return true;
    }
    if l.get_char(i) == '#' {
        return true;
    }
    let j = key_end_exec(l, i);
    if j == i {
        return false;
    }
    let key = l.substring_char(i, j);
    let k = skip_ws_exec(l, j);
    if !(k < n && l.get_char(k) == '=') {
        return false;
    }
    let m = skip_ws_exec(l, k + 1);
    if str_eq(key, "path") {
        match parse_qstring_exec(l, m) {
            Some((v, p)) => {
                let e = skip_ws_exec(l, p);
                if e == n {
                    acc.path = Some(v);
                    true
                } else {
                    false
                }
            },
            None => false,
        }
    } else if str_eq(key, "tabs") {
        match parse_array_exec(l, m) {
            Some((vs, p)) => {
                let e = skip_ws_exec(l, p);
                if e == n {
                    acc.tabs = Some(vs);
                    true
                } else {
                    false
                }
            },
            None => false,
        }
    } else if str_eq(key, "commands.local") {
        match parse_array_exec(l, m) {
            Some((vs, p)) => {
                let e = skip_ws_exec(l, p);
                if e == n {
                    acc.local = Some(vs);
                    true
                } else {
                    false
                }
            },
            None => false,
        }
    } else if str_eq(key, "commands.external") {
        match parse_array_exec(l, m) {
            Some((vs, p)) => {
                let e = skip_ws_exec(l, p);
                if e == n {
                    acc.external = Some(vs);
                    true
                } else {
                    false
                }
            },
            None => false,
        }
    } else if str_eq(key, "commands.background") {
        match parse_array_exec(l, m) {
            Some((vs, p)) => {
                let e = skip_ws_exec(l, p);
                if e == n {
                    acc.background = Some(vs);
                    true
                } else {
                    false
                }
            },
            None => false,
        }
    } else {
        true
    }
}

/// `scan_to` on a suffix is `scan_to` on the whole, shifted.
proof fn lemma_scan_to_shift(s: Seq<char>, i: int, c: char)
    requires
        0 <= i <= s.len(),
    ensures
        scan_to(s.subrange(i, s.len() as int), 0, c) == match scan_to(s, i, c) {
            Some(j) => Some(j - i),
            None => None::<int>,
        },
{
    let suf = s.subrange(i, s.len() as int);
    lemma_scan_to(s, i, c);
    lemma_scan_to(suf, 0, c);
    match scan_to(s, i, c) {
        Some(j) => {
            lemma_scan_to_eq(suf, 0, c, j - i);
        },
        None => {
            if scan_to(suf, 0, c) is Some {
                let j = scan_to(suf, 0, c)->Some_0;
                assert(s[i + j] == c);
            }
        },
    }
}

/// The lines of `t`.
fn split_lines_exec(t: &str) -> (r: Vec<String>)
    ensures
        r.deep_view() == split_lines(t@),
{
    let n = t.unicode_len();
    let mut out: Vec<String> = Vec::new();
    let mut cur: usize = 0;
    proof {
        assert(out.deep_view() =~= Seq::<Seq<char>>::empty());
        assert(t@.subrange(0, n as int) =~= t@);
        assert(out.deep_view() + split_lines(t@.subrange(0, n as int)) =~= split_lines(t@));
    }
    while cur < n
        invariant
            cur <= n,
            n == t@.len(),
            split_lines(t@) == out.deep_view() + split_lines(t@.subrange(cur as int, n as int)),
        decreases n - cur,
    {
        let ghost suf = t@.subrange(cur as int, n as int);
        let ghost prev = out.deep_view();
        proof {
            lemma_scan_to_shift(t@, cur as int, '\n');
            lemma_scan_to(t@, cur as int, '\n');
        }
        match find_char(t, cur, '\n') {
            None => {
                let line = t.substring_char(cur, n).to_owned();
                out.push(line);
                proof {
                    assert(split_lines(suf) =~= seq![suf]);
                    assert(out.deep_view() =~= prev.push(suf));
                    assert(out.deep_view() + split_lines(t@.subrange(n as int, n as int)) =~= split_lines(
                        t@,
                    ));
                }
                cur = n;
            },
            Some(j) => {
                let line = t.substring_char(cur, j).to_owned();
                out.push(line);
                proof {
                    assert(suf.len() > 0);
                    assert(scan_to(suf, 0, '\n') == Some(j - cur));
                    assert(suf.subrange(0, j - cur) =~= t@.subrange(cur as int, j as int));
                    assert(suf.subrange(j - cur + 1, suf.len() as int) =~= t@.subrange(
                        j + 1,
                        n as int,
                    ));
                    assert(split_lines(suf) =~= seq![t@.subrange(cur as int, j as int)]
                        + split_lines(t@.subrange(j + 1, n as int)));
                    assert(out.deep_view() =~= prev.push(t@.subrange(cur as int, j as int)));
                    assert(out.deep_view() + split_lines(t@.subrange(j + 1, n as int)) =~= split_lines(
                        t@,
                    ));
                }
                cur = j + 1;
            },
        }
    }
    proof {
        assert(split_lines(t@.subrange(n as int, n as int)) =~= Seq::<Seq<char>>::empty());
        assert(out.deep_view() =~= split_lines(t@));
    }
    out
}

/// Decodes a record text, tolerating absent optional keys and unknown
/// keys; fails exactly where the format's definition fails.
pub fn decode(t: &str) -> (r: Result<Workspace, DecodeError>)
    ensures
        match r {
            Ok(w) => spec_decode(t@) == Ok::<WorkspaceView, DecodeError>(w@),
            Err(e) => spec_decode(t@) == Err::<WorkspaceView, DecodeError>(e),
        },
{
    let lines = split_lines_exec(t);
    let ghost all = lines.deep_view();
    let mut acc = Partial { path: None, tabs: None, local: None, external: None, background: None };
    proof {
        assert(acc@ =~= empty_partial());
        assert(all.subrange(0, all.len() as int) =~= all);
    }
    let mut idx: usize = 0;
    while idx < lines.len()
        invariant
            idx <= lines.len(),
            all == lines.deep_view(),
            all == split_lines(t@),
            parse_lines(all, empty_partial(), 1) == parse_lines(
                all.subrange(idx as int, all.len() as int),
                acc@,
                idx + 1,
            ),
        decreases lines.len() - idx,
    {
        let ghost rest = all.subrange(idx as int, all.len() as int);
        proof {
            assert(rest[0] == all[idx as int]);
            assert(all[idx as int] == lines[idx as int]@);
        }
        let ok = apply_line_exec(&mut acc, lines[idx].as_str());
        if !ok {
            proof {
                assert(rest.len() > 0);
                assert(parse_lines(rest, acc@, idx as int + 1) == Err::<PartialView, int>(
                    idx as int + 1,
                ));
                assert(parse_lines(split_lines(t@), empty_partial(), 1) == Err::<PartialView, int>(
                    idx as int + 1,
                ));
                assert((idx as int + 1) as usize == idx + 1);
                assert(spec_decode(t@) == Err::<WorkspaceView, DecodeError>(
                    DecodeError::Malformed { line: (idx + 1) as usize },
                ));
            }
            return Err(DecodeError::Malformed { line: idx + 1 });
        }
        proof {
            assert(rest.drop_first() =~= all.subrange(idx + 1, all.len() as int));
        }
        idx = idx + 1;
    }
    proof {
        assert(all.subrange(all.len() as int, all.len() as int) =~= Seq::<Seq<char>>::empty());
    }
    let ghost accv = acc@;
    let tabs = match acc.tabs {
        Some(v) => v,
        None => Vec::new(),
    };
    let local = match acc.local {
        Some(v) => v,
        None => Vec::new(),
    };
    let external = match acc.external {
        Some(v) => v,
        None => Vec::new(),
    };
    let background = match acc.background {
        Some(v) => v,
        None => Vec::new(),
    };
    proof {
        assert(tabs.deep_view() =~= or_empty(accv.tabs));
        assert(local.deep_view() =~= or_empty(accv.local));
        assert(external.deep_view() =~= or_empty(accv.external));
        assert(background.deep_view() =~= or_empty(accv.background));
    }
    match acc.path {
        None => Err(DecodeError::MissingPath),
        Some(p) => {
            let w = Workspace { path: p, tabs, commands: Commands { local, external, background } };
            Ok(w)
        },
    }
}

/// Appends `s` in double quotes.
fn append_qstring(out: &mut String, s: &str)
    ensures
        final(out)@ == old(out)@ + enc_qstring(s@),
{
    out.append("\"");
    out.append(s);
    out.append("\"");
    proof {
        reveal_strlit("\"");
        assert("\""@ =~= seq!['"']);
        assert(final(out)@ =~= old(out)@ + enc_qstring(s@));
    }
}

/// Appends the comma-separated items of a non-empty list.
fn append_items(out: &mut String, vs: &Vec<String>)
    ensures
        final(out)@ == old(out)@ + enc_items(vs.deep_view(), 0),
{
    let ghost dv = vs.deep_view();
    let n = vs.len();
    let mut i: usize = 0;
    while i < n
        invariant
            i <= n,
            n == vs.len(),
            dv == vs.deep_view(),
            out@ + enc_items(dv, i as int) == old(out)@ + enc_items(dv, 0),
        decreases n - i,
    {
        let ghost before = out@;
        append_qstring(out, vs[i].as_str());
        if i + 1 < n {
            out.append(", ");
            proof {
                reveal_strlit(", ");
                assert(", "@ =~= seq![',', ' ']);
                assert(dv[i as int] == vs[i as int]@);
                assert(out@ =~= before + enc_qstring(dv[i as int]) + seq![',', ' ']);
                assert(enc_items(dv, i as int) == enc_qstring(dv[i as int]) + seq![',', ' ']
                    + enc_items(dv, i + 1));
                assert(out@ + enc_items(dv, i + 1) =~= before + enc_items(dv, i as int));
            }
        } else {
            proof {
                assert(dv[i as int] == vs[i as int]@);
                assert(i == n - 1);
                assert(enc_items(dv, i as int) == enc_qstring(dv[i as int]));
                assert(enc_items(dv, i + 1) =~= Seq::<char>::empty());
                assert(out@ + enc_items(dv, i + 1) =~= before + enc_items(dv, i as int));
            }
        }
        i = i + 1;
    }
    proof {
        assert(enc_items(dv, n as int) =~= Seq::<char>::empty());
        assert(final(out)@ =~= old(out)@ + enc_items(dv, 0));
    }
}

/// Appends one `key = [...]` line, line break included.
fn append_list_line(out: &mut String, key: &str, vs: &Vec<String>)
    ensures
        final(out)@ == old(out)@ + enc_kv(key@, enc_array(vs.deep_view())) + seq!['\n'],
{
    out.append(key);
    out.append(" = [");
    append_items(out, vs);
    out.append("]\n");
    proof {
        reveal_strlit(" = [");
        reveal_strlit("]\n");
        assert(" = ["@ =~= seq![' ', '=', ' ', '[']);
        assert("]\n"@ =~= seq![']', '\n']);
        assert(final(out)@ =~= old(out)@ + enc_kv(key@, enc_array(vs.deep_view())) + seq!['\n']);
    }
}

/// Encodes a record; optional fields that are empty are omitted.
pub fn encode(w: &Workspace) -> (r: String)
    ensures
        r@ == spec_encode(w@),
{
    let mut out = String::new();
    out.append("path = ");
    append_qstring(&mut out, w.path.as_str());
    out.append("\n");
    proof {
        reveal_strlit("path = ");
        reveal_strlit("path");
        reveal_strlit("\n");
        assert("path = "@ =~= "path"@ + seq![' ', '=', ' ']);
        assert("\n"@ =~= seq!['\n']);
        assert(out@ =~= enc_kv("path"@, enc_qstring(w.path@)) + seq!['\n']);
    }
    let ghost line1: Seq<char> = enc_kv("path"@, enc_qstring(w.path@)) + seq!['\n'];
    if w.tabs.len() > 0 {
        append_list_line(&mut out, "tabs", &w.tabs);
    }
    let ghost line2 = out@;
    if w.commands.local.len() > 0 {
        append_list_line(&mut out, "commands.local", &w.commands.local);
    }
    let ghost line3 = out@;
    if w.commands.external.len() > 0 {
        append_list_line(&mut out, "commands.external", &w.commands.external);
    }
    let ghost line4 = out@;
    if w.commands.background.len() > 0 {
        append_list_line(&mut out, "commands.background", &w.commands.background);
    }
    proof {
        lemma_join_enc_lines(w@);
    }
    out
}

/// `join_lines` distributes over concatenation.
pub proof fn lemma_join_lines_append(a: Seq<Seq<char>>, b: Seq<Seq<char>>)
    ensures
        join_lines(a + b) == join_lines(a) + join_lines(b),
    decreases a.len(),
{
    if a.len() == 0 {
        assert(a + b =~= b);
        assert(join_lines(a) + join_lines(b) =~= join_lines(b));
    } else {
        lemma_join_lines_append(a.drop_first(), b);
        assert((a + b).drop_first() =~= a.drop_first() + b);
        assert((a + b)[0] == a[0]);
        assert(join_lines(a + b) =~= join_lines(a) + join_lines(b));
    }
}

/// The joined text of a single line.
pub proof fn lemma_join_lines_one(l: Seq<char>)
    ensures
        join_lines(seq![l]) == l + seq!['\n'],
{
    assert(seq![l].drop_first() =~= Seq::<Seq<char>>::empty());
    assert(join_lines(Seq::<Seq<char>>::empty()) == Seq::<char>::empty());
    assert(join_lines(seq![l]) =~= l + seq!['\n']);
}

/// The encoded text is the concatenation of the encoded lines, each
/// with its line break.
proof fn lemma_join_enc_lines(w: WorkspaceView)
    ensures
        spec_encode(w) == (enc_kv("path"@, enc_qstring(w.path)) + seq!['\n']) + (if w.tabs.len()
            == 0 {
            Seq::<char>::empty()
        } else {
            enc_kv("tabs"@, enc_array(w.tabs)) + seq!['\n']
        }) + (if w.commands.local.len() == 0 {
            Seq::<char>::empty()
        } else {
            enc_kv("commands.local"@, enc_array(w.commands.local)) + seq!['\n']
        }) + (if w.commands.external.len() == 0 {
            Seq::<char>::empty()
        } else {
            enc_kv("commands.external"@, enc_array(w.commands.external)) + seq!['\n']
        }) + (if w.commands.background.len() == 0 {
            Seq::<char>::empty()
        } else {
            enc_kv("commands.background"@, enc_array(w.commands.background)) + seq!['\n']
        }),
{
    let s1 = seq![enc_kv("path"@, enc_qstring(w.path))];
    let s2: Seq<Seq<char>> = if w.tabs.len() == 0 {
        Seq::empty()
    } else {
        seq![enc_kv("tabs"@, enc_array(w.tabs))]
    };
    let s3: Seq<Seq<char>> = if w.commands.local.len() == 0 {
        Seq::empty()
    } else {
        seq![enc_kv("commands.local"@, enc_array(w.commands.local))]
    };
    let s4: Seq<Seq<char>> = if w.commands.external.len() == 0 {
        Seq::empty()
    } else {
        seq![enc_kv("commands.external"@, enc_array(w.commands.external))]
    };
    let s5: Seq<Seq<char>> = if w.commands.background.len() == 0 {
        Seq::empty()
    } else {
        seq![enc_kv("commands.background"@, enc_array(w.commands.background))]
    };
    lemma_join_lines_append(s1 + s2 + s3 + s4, s5);
    lemma_join_lines_append(s1 + s2 + s3, s4);
    lemma_join_lines_append(s1 + s2, s3);
    lemma_join_lines_append(s1, s2);
    lemma_join_lines_one(s1[0]);
    if s2.len() > 0 {
        lemma_join_lines_one(s2[0]);
    }
    if s3.len() > 0 {
        lemma_join_lines_one(s3[0]);
    }
    if s4.len() > 0 {
        lemma_join_lines_one(s4[0]);
    }
    if s5.len() > 0 {
        lemma_join_lines_one(s5[0]);
    }
    assert(join_lines(Seq::<Seq<char>>::empty()) =~= Seq::<char>::empty());
}

// ---------------------------------------------------------------------------
// The round-trip law: decoding an encoded record gives the record back.
// ---------------------------------------------------------------------------

/// A subrange of a subrange, rebased.
proof fn lemma_subrange_of_subrange(l: Seq<char>, pos: int, e: int, a: int, b: int)
    requires
        0 <= pos <= e <= l.len(),
        pos <= a <= b <= e,
    ensures
        l.subrange(a, b) == l.subrange(pos, e).subrange(a - pos, b - pos),
{
    assert(l.subrange(a, b) =~= l.subrange(pos, e).subrange(a - pos, b - pos));
}

/// Inside any text, a quoted clean string parses back to itself.
proof fn lemma_parse_qstring_at(l: Seq<char>, pos: int, s: Seq<char>)
    requires
        text_clean(s),
        0 <= pos,
        pos + s.len() + 2 <= l.len(),
        l.subrange(pos, pos + s.len() + 2) == enc_qstring(s),
    ensures
        parse_qstring(l, pos) == Some((s, pos + s.len() + 2)),
{
    let e = pos + s.len() + 2;
    let sub = l.subrange(pos, e);
    assert forall|k: int| pos <= k < e implies l[k] == enc_qstring(s)[k - pos] by {
        assert(sub[k - pos] == l[k]);
    }
    assert(l[pos] == '"');
    assert(l[e - 1] == '"');
    assert forall|k: int| pos + 1 <= k < pos + 1 + s.len() implies l[k] != '"' by {
        assert(l[k] == enc_qstring(s)[k - pos]);
        assert(enc_qstring(s)[k - pos] == s[k - pos - 1]);
    }
    lemma_scan_to_eq(l, pos + 1, '"', pos + 1 + s.len());
    assert(l.subrange(pos + 1, pos + 1 + s.len()) =~= s);
}

/// The first character of an encoded list tail is an opening quote.
proof fn lemma_enc_items_first(vs: Seq<Seq<char>>, i: int)
    requires
        0 <= i < vs.len(),
    ensures
        enc_items(vs, i).len() >= vs[i].len() + 2,
        enc_items(vs, i)[0] == '"',
{
    assert(enc_qstring(vs[i])[0] == '"');
}

/// Inside any text, the encoded items of a clean list parse back to
/// the list.
proof fn lemma_parse_items_at(
    l: Seq<char>,
    pos: int,
    vs: Seq<Seq<char>>,
    i: int,
    acc: Seq<Seq<char>>,
)
    requires
        all_clean(vs),
        0 <= i < vs.len(),
        0 <= pos,
        pos + enc_items(vs, i).len() + 1 <= l.len(),
        l.subrange(pos, pos + enc_items(vs, i).len() + 1) == enc_items(vs, i) + seq![']'],
    ensures
        parse_items(l, pos, acc) == Some(
            (acc + vs.subrange(i, vs.len() as int), pos + enc_items(vs, i).len() + 1),
        ),
    decreases vs.len() - i,
{
    let whole = enc_items(vs, i) + seq![']'];
    let e = pos + enc_items(vs, i).len() + 1;
    let sub = l.subrange(pos, e);
    assert forall|k: int| pos <= k < e implies l[k] == whole[k - pos] by {
        assert(sub[k - pos] == l[k]);
    }
    let q = enc_qstring(vs[i]);
    let s = vs[i];
    assert(text_clean(s));
    if i == vs.len() - 1 {
        assert(enc_items(vs, i) == q);
        lemma_subrange_of_subrange(l, pos, e, pos, pos + q.len());
        assert(l.subrange(pos, pos + q.len()) =~= q);
        lemma_parse_qstring_at(l, pos, s);
        let j = pos + s.len() + 2;
        assert(l[j] == ']');
        lemma_skip_ws_eq(l, j, j);
        assert(parse_items(l, pos, acc) == Some((acc.push(s), j + 1)));
        assert(acc.push(s) =~= acc + vs.subrange(i, vs.len() as int));
    } else {
        let rest = enc_items(vs, i + 1);
        assert(enc_items(vs, i) == q + seq![',', ' '] + rest);
        lemma_subrange_of_subrange(l, pos, e, pos, pos + q.len());
        assert(l.subrange(pos, pos + q.len()) =~= q);
        lemma_parse_qstring_at(l, pos, s);
        let j = pos + s.len() + 2;
        assert(j == pos + q.len());
        assert(l[j] == ',');
        lemma_skip_ws_eq(l, j, j);
        assert(l[j + 1] == ' ');
        lemma_enc_items_first(vs, i + 1);
        assert(l[j + 2] == rest[0]);
        assert(l[j + 2] == '"');
        lemma_skip_ws_eq(l, j + 1, j + 2);
        let m = j + 2;
        assert(m + rest.len() + 1 <= l.len());
        lemma_subrange_of_subrange(l, pos, e, m, m + rest.len() + 1);
        assert(l.subrange(m, m + rest.len() + 1) =~= rest + seq![']']);
        lemma_parse_items_at(l, m, vs, i + 1, acc.push(s));
        assert(parse_items(l, pos, acc) == Some(
            (acc.push(s) + vs.subrange(i + 1, vs.len() as int), m + rest.len() + 1),
        ));
        assert(acc.push(s) + vs.subrange(i + 1, vs.len() as int) =~= acc + vs.subrange(
            i,
            vs.len() as int,
        ));
        assert(m + rest.len() + 1 == e);
    }
}

/// Inside any text, an encoded clean non-empty list parses back to
/// the list.
proof fn lemma_parse_array_at(l: Seq<char>, pos: int, vs: Seq<Seq<char>>)
    requires
        all_clean(vs),
        vs.len() > 0,
        0 <= pos,
        pos + enc_array(vs).len() <= l.len(),
        l.subrange(pos, pos + enc_array(vs).len()) == enc_array(vs),
    ensures
        parse_array(l, pos) == Some((vs, pos + enc_array(vs).len())),
{
    let ea = enc_array(vs);
    let e = pos + ea.len();
    let sub = l.subrange(pos, e);
    assert forall|k: int| pos <= k < e implies l[k] == ea[k - pos] by {
        assert(sub[k - pos] == l[k]);
    }
    assert(l[pos] == '[');
    lemma_enc_items_first(vs, 0);
    assert(l[pos + 1] == enc_items(vs, 0)[0]);
    assert(l[pos + 1] == '"');
    lemma_skip_ws_eq(l, pos + 1, pos + 1);
    lemma_subrange_of_subrange(l, pos, e, pos + 1, pos + 1 + enc_items(vs, 0).len() + 1);
    assert(l.subrange(pos + 1, pos + 1 + enc_items(vs, 0).len() + 1) =~= enc_items(vs, 0)
        + seq![']']);
    lemma_parse_items_at(l, pos + 1, vs, 0, Seq::empty());
    assert(Seq::empty() + vs.subrange(0, vs.len() as int) =~= vs);
    assert(pos + 1 + enc_items(vs, 0).len() + 1 == e);
}

/// A key character is not whitespace, not `#`, not `=`.
proof fn lemma_key_char_facts(c: char)
    requires
        is_key_char(c),
    ensures
        !is_ws(c),
        c != '#',
        c != '=',
        c != '"',
        c != '[',
{
}

/// The positions `parse_line` visits on a `key = value` line.
proof fn lemma_line_shape(key: Seq<char>, val: Seq<char>)
    requires
        key.len() > 0,
        forall|k: int| 0 <= k < key.len() ==> is_key_char(#[trigger] key[k]),
        val.len() > 0,
        !is_ws(val[0]),
        !is_key_char(val[0]),
    ensures
        ({
            let l = enc_kv(key, val);
            &&& l.len() == key.len() + 3 + val.len()
            &&& skip_ws(l, 0) == 0
            &&& l[0] != '#'
            &&& key_end(l, 0) == key.len()
            &&& l.subrange(0, key.len() as int) == key
            &&& skip_ws(l, key.len() as int) == key.len() + 1
            &&& l[key.len() as int + 1] == '='
            &&& skip_ws(l, key.len() as int + 2) == key.len() as int + 3
            &&& l.subrange(key.len() as int + 3, l.len() as int) == val
        }),
{
    let l = enc_kv(key, val);
    let kn = key.len() as int;
    assert(l.len() == kn + 3 + val.len());
    assert(l[0] == key[0]);
    lemma_key_char_facts(key[0]);
    lemma_skip_ws_eq(l, 0, 0);
    assert forall|k: int| 0 <= k < kn implies is_key_char(l[k]) by {
        assert(l[k] == key[k]);
    }
    assert(l[kn] == ' ');
    assert(!is_key_char(' '));
    lemma_key_end_eq(l, 0, kn);
    assert(l.subrange(0, kn) =~= key);
    assert(l[kn + 1] == '=');
    assert(!is_ws('='));
    lemma_skip_ws_eq(l, kn, kn + 1);
    assert(l[kn + 2] == ' ');
    assert(l[kn + 3] == val[0]);
    lemma_skip_ws_eq(l, kn + 2, kn + 3);
    assert(l.subrange(kn + 3, l.len() as int) =~= val);
}

/// Each of the five keys, as characters.
proof fn lemma_keys()
    ensures
        "path"@.len() == 4,
        forall|k: int| 0 <= k < "path"@.len() ==> is_key_char(#[trigger] "path"@[k]),
        "tabs"@.len() == 4,
        forall|k: int| 0 <= k < "tabs"@.len() ==> is_key_char(#[trigger] "tabs"@[k]),
        "tabs"@ != "path"@,
        "commands.local"@.len() == 14,
        forall|k: int| 0 <= k < "commands.local"@.len() ==> is_key_char(
            #[trigger] "commands.local"@[k],
        ),
        "commands.external"@.len() == 17,
        forall|k: int| 0 <= k < "commands.external"@.len() ==> is_key_char(
            #[trigger] "commands.external"@[k],
        ),
        "commands.background"@.len() == 19,
        forall|k: int| 0 <= k < "commands.background"@.len() ==> is_key_char(
            #[trigger] "commands.background"@[k],
        ),
        "commands.external"@ != "path"@ && "commands.external"@ != "tabs"@
            && "commands.external"@ != "commands.local"@,
        "commands.local"@ != "path"@ && "commands.local"@ != "tabs"@,
        "commands.background"@ != "path"@ && "commands.background"@ != "tabs"@
            && "commands.background"@ != "commands.local"@ && "commands.background"@
            != "commands.external"@,
{
    reveal_strlit("path");
    reveal_strlit("tabs");
    reveal_strlit("commands.local");
    reveal_strlit("commands.external");
    reveal_strlit("commands.background");
    assert("tabs"@[0] != "path"@[0]);
    assert("commands.external"@[10] != "commands.background"@[10]);
}

/// The encoded `path` line means: set the path.
proof fn lemma_line_path(p: Seq<char>)
    requires
        text_clean(p),
    ensures
        parse_line(enc_kv("path"@, enc_qstring(p))) == LineCmd::SetPath(p),
{
    lemma_keys();
    let key = "path"@;
    let val = enc_qstring(p);
    assert(val[0] == '"');
    assert(!is_ws('"') && !is_key_char('"'));
    lemma_line_shape(key, val);
    let l = enc_kv(key, val);
    let m = key.len() + 3;
    lemma_subrange_of_subrange(l, m as int, l.len() as int, m as int, l.len() as int);
    assert(l.subrange(m as int, l.len() as int) == val);
    lemma_parse_qstring_at(l, m as int, p);
    assert(m + p.len() + 2 == l.len());
    lemma_skip_ws_eq(l, l.len() as int, l.len() as int);
    assert(parse_line(l) == LineCmd::SetPath(p));
}

/// Which list a key names.
pub enum ListKey {
    Tabs,
    Local,
    External,
    Background,
}

pub open spec fn list_key_text(k: ListKey) -> Seq<char> {
    match k {
        ListKey::Tabs => "tabs"@,
        ListKey::Local => "commands.local"@,
        ListKey::External => "commands.external"@,
        ListKey::Background => "commands.background"@,
    }
}

pub open spec fn list_key_cmd(k: ListKey, vs: Seq<Seq<char>>) -> LineCmd {
    match k {
        ListKey::Tabs => LineCmd::SetTabs(vs),
        ListKey::Local => LineCmd::SetLocal(vs),
        ListKey::External => LineCmd::SetExternal(vs),
        ListKey::Background => LineCmd::SetBackground(vs),
    }
}

/// An encoded list line means: set that list.
proof fn lemma_line_list(k: ListKey, vs: Seq<Seq<char>>)
    requires
        all_clean(vs),
        vs.len() > 0,
    ensures
        parse_line(enc_kv(list_key_text(k), enc_array(vs))) == list_key_cmd(k, vs),
{
    lemma_keys();
    let key = list_key_text(k);
    let val = enc_array(vs);
    assert(val[0] == '[');
    assert(!is_ws('[') && !is_key_char('['));
    lemma_line_shape(key, val);
    let l = enc_kv(key, val);
    let m = key.len() as int + 3;
    assert(l.subrange(m, l.len() as int) == val);
    assert(m + val.len() == l.len());
    lemma_parse_array_at(l, m, vs);
    lemma_skip_ws_eq(l, l.len() as int, l.len() as int);
    assert(l.subrange(0, key.len() as int) == key);
    assert(parse_line(l) == list_key_cmd(k, vs));
}

/// Folding lines distributes over concatenation.
proof fn lemma_parse_lines_append(a: Seq<Seq<char>>, b: Seq<Seq<char>>, acc: PartialView, ln: int)
    ensures
        parse_lines(a + b, acc, ln) == match parse_lines(a, acc, ln) {
            Ok(a2) => parse_lines(b, a2, ln + a.len()),
            Err(e) => Err(e),
        },
    decreases a.len(),
{
    if a.len() == 0 {
        assert(a + b =~= b);
    } else {
        assert((a + b)[0] == a[0]);
        match apply_line(acc, a[0]) {
            None => {
            },
            Some(a2) => {
                assert((a + b).drop_first() =~= a.drop_first() + b);
                lemma_parse_lines_append(a.drop_first(), b, a2, ln + 1);
            },
        }
    }
}

/// Folding a single line.
proof fn lemma_parse_lines_one(l: Seq<char>, acc: PartialView, ln: int)
    ensures
        parse_lines(seq![l], acc, ln) == match apply_line(acc, l) {
            Some(a2) => Ok::<PartialView, int>(a2),
            None => Err::<PartialView, int>(ln),
        },
{
    assert(seq![l].drop_first() =~= Seq::<Seq<char>>::empty());
    match apply_line(acc, l) {
        Some(a2) => {
            assert(parse_lines(Seq::<Seq<char>>::empty(), a2, ln + 1) == Ok::<PartialView, int>(
                a2,
            ));
        },
        None => {
        },
    }
}

/// No line break occurs in an encoded quoted string of a clean string.
pub open spec fn no_newline(s: Seq<char>) -> bool {
    forall|k: int| 0 <= k < s.len() ==> s[k] != '\n'
}

proof fn lemma_enc_items_no_newline(vs: Seq<Seq<char>>, i: int)
    requires
        all_clean(vs),
        0 <= i,
    ensures
        no_newline(enc_items(vs, i)),
    decreases vs.len() - i,
{
    if i < vs.len() {
        assert(text_clean(vs[i]));
        if i < vs.len() - 1 {
            lemma_enc_items_no_newline(vs, i + 1);
        }
    }
}

proof fn lemma_enc_line_no_newline(key: Seq<char>, val: Seq<char>)
    requires
        no_newline(key),
        no_newline(val),
    ensures
        no_newline(enc_kv(key, val)),
{
}

/// Splitting the joined lines gives the lines back, when none of them
/// holds a line break.
proof fn lemma_split_join(ls: Seq<Seq<char>>)
    requires
        forall|i: int| 0 <= i < ls.len() ==> no_newline(#[trigger] ls[i]),
    ensures
        split_lines(join_lines(ls)) == ls,
    decreases ls.len(),
{
    if ls.len() == 0 {
        assert(split_lines(join_lines(ls)) =~= ls);
    } else {
        let l0 = ls[0];
        let t = join_lines(ls);
        assert(t == l0 + seq!['\n'] + join_lines(ls.drop_first()));
        assert(t.len() > 0);
        assert(t[l0.len() as int] == '\n');
        assert forall|k: int| 0 <= k < l0.len() implies t[k] != '\n' by {
            assert(t[k] == l0[k]);
        }
        lemma_scan_to_eq(t, 0, '\n', l0.len() as int);
        assert(t.subrange(0, l0.len() as int) =~= l0);
        assert(t.subrange(l0.len() as int + 1, t.len() as int) =~= join_lines(ls.drop_first()));
        assert forall|i: int| 0 <= i < ls.drop_first().len() implies no_newline(
            #[trigger] ls.drop_first()[i],
        ) by {
            assert(ls.drop_first()[i] == ls[i + 1]);
        }
        lemma_split_join(ls.drop_first());
        assert(split_lines(t) == seq![l0] + ls.drop_first());
        assert(seq![l0] + ls.drop_first() =~= ls);
    }
}

/// The five line segments a record encodes to.
pub open spec fn seg_path(w: WorkspaceView) -> Seq<Seq<char>> {
    seq![enc_kv("path"@, enc_qstring(w.path))]
}

pub open spec fn seg_list(key: Seq<char>, vs: Seq<Seq<char>>) -> Seq<Seq<char>> {
    if vs.len() == 0 {
        Seq::empty()
    } else {
        seq![enc_kv(key, enc_array(vs))]
    }
}

/// The partial record that folding the encoded lines produces.
pub open spec fn enc_partial(w: WorkspaceView) -> PartialView {
    PartialView {
        path: Some(w.path),
        tabs: if w.tabs.len() == 0 {
            None
        } else {
            Some(w.tabs)
        },
        local: if w.commands.local.len() == 0 {
            None
        } else {
            Some(w.commands.local)
        },
        external: if w.commands.external.len() == 0 {
            None
        } else {
            Some(w.commands.external)
        },
        background: if w.commands.background.len() == 0 {
            None
        } else {
            Some(w.commands.background)
        },
    }
}

/// The encoded lines, as the five segments.
proof fn lemma_enc_lines_as_segments(w: WorkspaceView)
    ensures
        enc_lines(w) == seg_path(w) + seg_list("tabs"@, w.tabs) + seg_list(
            "commands.local"@,
            w.commands.local,
        ) + seg_list("commands.external"@, w.commands.external) + seg_list(
            "commands.background"@,
            w.commands.background,
        ),
{
}

/// No encoded line holds a line break.
proof fn lemma_enc_lines_no_newline(w: WorkspaceView)
    requires
        record_clean(w),
    ensures
        forall|i: int| 0 <= i < enc_lines(w).len() ==> no_newline(#[trigger] enc_lines(w)[i]),
{
    lemma_keys();
    let s1 = seg_path(w);
    let s2 = seg_list("tabs"@, w.tabs);
    let s3 = seg_list("commands.local"@, w.commands.local);
    let s4 = seg_list("commands.external"@, w.commands.external);
    let s5 = seg_list("commands.background"@, w.commands.background);
    let ls = enc_lines(w);
    lemma_enc_lines_as_segments(w);
    assert(no_newline("path"@) && no_newline("tabs"@) && no_newline("commands.local"@)
        && no_newline("commands.external"@) && no_newline("commands.background"@));
    assert(no_newline(enc_qstring(w.path)));
    lemma_enc_line_no_newline("path"@, enc_qstring(w.path));
    if w.tabs.len() > 0 {
        lemma_enc_items_no_newline(w.tabs, 0);
        lemma_enc_line_no_newline("tabs"@, enc_array(w.tabs));
    }
    if w.commands.local.len() > 0 {
        lemma_enc_items_no_newline(w.commands.local, 0);
        lemma_enc_line_no_newline("commands.local"@, enc_array(w.commands.local));
    }
    if w.commands.external.len() > 0 {
        lemma_enc_items_no_newline(w.commands.external, 0);
        lemma_enc_line_no_newline("commands.external"@, enc_array(w.commands.external));
    }
    if w.commands.background.len() > 0 {
        lemma_enc_items_no_newline(w.commands.background, 0);
        lemma_enc_line_no_newline("commands.background"@, enc_array(w.commands.background));
    }
    assert forall|i: int| 0 <= i < ls.len() implies no_newline(#[trigger] ls[i]) by {
        let n1 = s1.len() as int;
        let n2 = n1 + s2.len() as int;
        let n3 = n2 + s3.len() as int;
        let n4 = n3 + s4.len() as int;
        if i < n1 {
            assert(ls[i] == s1[0]);
        } else if i < n2 {
            assert(ls[i] == s2[0]);
        } else if i < n3 {
            assert(ls[i] == s3[0]);
        } else if i < n4 {
            assert(ls[i] == s4[0]);
        } else {
            assert(ls[i] == s5[0]);
        }
    }
}

/// A list key's field set in a partial record, when the list is
/// non-empty.
pub open spec fn set_list_field(k: ListKey, acc: PartialView, vs: Seq<Seq<char>>) -> PartialView {
    if vs.len() == 0 {
        acc
    } else {
        match k {
            ListKey::Tabs => PartialView { tabs: Some(vs), ..acc },
            ListKey::Local => PartialView { local: Some(vs), ..acc },
            ListKey::External => PartialView { external: Some(vs), ..acc },
            ListKey::Background => PartialView { background: Some(vs), ..acc },
        }
    }
}

/// Folding the `path` segment, then the rest.
proof fn lemma_fold_path_seg(p: Seq<char>, rest: Seq<Seq<char>>, acc: PartialView, ln: int)
    requires
        text_clean(p),
    ensures
        parse_lines(seq![enc_kv("path"@, enc_qstring(p))] + rest, acc, ln) == parse_lines(
            rest,
            PartialView { path: Some(p), ..acc },
            ln + 1,
        ),
{
    let seg = seq![enc_kv("path"@, enc_qstring(p))];
    lemma_parse_lines_append(seg, rest, acc, ln);
    lemma_line_path(p);
    lemma_parse_lines_one(seg[0], acc, ln);
}

/// Folding one optional list segment, then the rest.
proof fn lemma_fold_list_seg(
    k: ListKey,
    vs: Seq<Seq<char>>,
    rest: Seq<Seq<char>>,
    acc: PartialView,
    ln: int,
)
    requires
        all_clean(vs),
    ensures
        parse_lines(seg_list(list_key_text(k), vs) + rest, acc, ln) == parse_lines(
            rest,
            set_list_field(k, acc, vs),
            ln + seg_list(list_key_text(k), vs).len(),
        ),
{
    let seg = seg_list(list_key_text(k), vs);
    lemma_parse_lines_append(seg, rest, acc, ln);
    if vs.len() == 0 {
        assert(parse_lines(seg, acc, ln) == Ok::<PartialView, int>(acc));
    } else {
        lemma_line_list(k, vs);
        lemma_parse_lines_one(seg[0], acc, ln);
    }
}

/// Folding the encoded lines fills exactly the non-empty fields.
#[verifier::rlimit(100)]
proof fn lemma_fold_enc_lines(w: WorkspaceView)
    requires
        record_clean(w),
    ensures
        parse_lines(enc_lines(w), empty_partial(), 1) == Ok::<PartialView, int>(enc_partial(w)),
{
    let s1 = seg_path(w);
    let s2 = seg_list("tabs"@, w.tabs);
    let s3 = seg_list("commands.local"@, w.commands.local);
    let s4 = seg_list("commands.external"@, w.commands.external);
    let s5 = seg_list("commands.background"@, w.commands.background);
    let ls = enc_lines(w);
    lemma_enc_lines_as_segments(w);

    let empty_rest = Seq::<Seq<char>>::empty();
    let r4 = s5 + empty_rest;
    let r3 = s4 + r4;
    let r2 = s3 + r3;
    let r1 = s2 + r2;
    assert(ls =~= s1 + r1);

    let acc0 = empty_partial();
    let acc1 = PartialView { path: Some(w.path), ..acc0 };
    lemma_fold_path_seg(w.path, r1, acc0, 1);
    let acc2 = set_list_field(ListKey::Tabs, acc1, w.tabs);
    lemma_fold_list_seg(ListKey::Tabs, w.tabs, r2, acc1, 2);
    let acc3 = set_list_field(ListKey::Local, acc2, w.commands.local);
    lemma_fold_list_seg(ListKey::Local, w.commands.local, r3, acc2, 2 + s2.len() as int);
    let acc4 = set_list_field(ListKey::External, acc3, w.commands.external);
    lemma_fold_list_seg(
        ListKey::External,
        w.commands.external,
        r4,
        acc3,
        2 + s2.len() as int + s3.len() as int,
    );
    let acc5 = set_list_field(ListKey::Background, acc4, w.commands.background);
    lemma_fold_list_seg(
        ListKey::Background,
        w.commands.background,
        empty_rest,
        acc4,
        2 + s2.len() as int + s3.len() as int + s4.len() as int,
    );
    assert(parse_lines(empty_rest, acc5, 2 + s2.len() as int + s3.len() as int + s4.len() as int
        + s5.len() as int) == Ok::<PartialView, int>(acc5));
    assert(parse_lines(ls, acc0, 1) == Ok::<PartialView, int>(acc5));
    assert(acc5 =~= enc_partial(w));
}

/// ROUND-TRIP: decoding the encoding of any clean record yields the
/// record itself, optional fields included — absent ones come back
/// empty exactly when they were empty.
pub proof fn lemma_decode_encode(w: WorkspaceView)
    requires
        record_clean(w),
    ensures
        spec_decode(spec_encode(w)) == Ok::<WorkspaceView, DecodeError>(w),
{
    lemma_enc_lines_no_newline(w);
    lemma_split_join(enc_lines(w));
    lemma_fold_enc_lines(w);
    match finish_partial(enc_partial(w)) {
        Ok(w2) => {
            if w.tabs.len() == 0 {
                assert(w.tabs =~= Seq::<Seq<char>>::empty());
            }
            if w.commands.local.len() == 0 {
                assert(w.commands.local =~= Seq::<Seq<char>>::empty());
            }
            if w.commands.external.len() == 0 {
                assert(w.commands.external =~= Seq::<Seq<char>>::empty());
            }
            if w.commands.background.len() == 0 {
                assert(w.commands.background =~= Seq::<Seq<char>>::empty());
            }
            assert(w2 =~= w);
        },
        Err(_) => {
            assert(false);
        },
    }
}

/// PARTIAL DEFAULT: a text carrying only a `path` line decodes to a
/// record whose tabs and command lists are all empty.
pub proof fn lemma_partial_default(p: Seq<char>)
    requires
        text_clean(p),
    ensures
        spec_decode(join_lines(seq![enc_kv("path"@, enc_qstring(p))])) == Ok::<
            WorkspaceView,
            DecodeError,
        >(
            WorkspaceView {
                path: p,
                tabs: Seq::empty(),
                commands: CommandsView {
                    local: Seq::empty(),
                    external: Seq::empty(),
                    background: Seq::empty(),
                },
            },
        ),
{
    let w = WorkspaceView {
        path: p,
        tabs: Seq::empty(),
        commands: CommandsView {
            local: Seq::empty(),
            external: Seq::empty(),
            background: Seq::empty(),
        },
    };
    assert(record_clean(w));
    lemma_decode_encode(w);
    assert(enc_lines(w) =~= seq![enc_kv("path"@, enc_qstring(p))]);
}

} // verus!
