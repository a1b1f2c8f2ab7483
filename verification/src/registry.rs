use vstd::prelude::*;

use crate::codec::{decode, encode, spec_decode, spec_encode, DecodeError};
use crate::record::{Workspace, WorkspaceView};

verus! {

// ---------------------------------------------------------------------------
// The registry: one record per file, in a single flat directory.
//
// The registry is modelled as the sequence of directory entries it was
// read from: each entry's stem and extension (absent when the name has
// none, or is not valid text), whether it is a regular file, and the
// file's text (absent when the file could not be read as text). The
// operations below are verified against that model; the thin shell
// around the library mirrors each one onto the real directory.
// ---------------------------------------------------------------------------

/// Why a registry operation was refused.
#[derive(PartialEq, Eq, Structural, Clone, Copy, Debug)]
pub enum OpError {
    /// The name is already taken.
    AlreadyExists,
    /// No entry of that name exists.
    NotFound,
}

/// Why a present record could not be loaded.
#[derive(PartialEq, Eq, Structural, Clone, Copy, Debug)]
pub enum Error {
    /// The file could not be read as text.
    Read,
    /// The file's text does not decode.
    Parse(DecodeError),
}

/// One directory entry of the registry root.
pub struct RegEntry {
    /// The file stem, absent when it is not valid text.
    pub stem: Option<String>,
    /// The extension, absent when the name has none.
    pub ext: Option<String>,
    /// Whether the entry is a regular file.
    pub is_file: bool,
    /// The file's text, absent when it could not be read.
    pub content: Option<String>,
}

/// Model of one directory entry.
#[verifier::ext_equal]
pub struct RegEntryView {
    pub stem: Option<Seq<char>>,
    pub ext: Option<Seq<char>>,
    pub is_file: bool,
    pub content: Option<Seq<char>>,
}

impl View for RegEntry {
    type V = RegEntryView;

    open spec fn view(&self) -> RegEntryView {
        RegEntryView {
            stem: self.stem.deep_view(),
            ext: self.ext.deep_view(),
            is_file: self.is_file,
            content: self.content.deep_view(),
        }
    }
}

/// The entry that stores the workspace called `name`.
pub open spec fn entry_matches(e: RegEntryView, name: Seq<char>) -> bool {
    e.is_file && e.ext == Some("toml"@) && e.stem == Some(name)
}

/// An entry the bulk listing reports: a regular file with the codec's
/// extension.
pub open spec fn is_record_entry(e: RegEntryView) -> bool {
    e.is_file && e.ext == Some("toml"@)
}

/// A name is stored at most once: what the file system's uniqueness of
/// file names gives the real directory.
pub open spec fn spec_wf(reg: Seq<RegEntryView>) -> bool {
    forall|i: int, j: int|
        0 <= i < j < reg.len() && is_record_entry(#[trigger] reg[i]) && is_record_entry(
            #[trigger] reg[j],
        ) ==> !(reg[i].stem is Some && reg[i].stem == reg[j].stem)
}

/// Some entry stores `name`.
pub open spec fn spec_exists(reg: Seq<RegEntryView>, name: Seq<char>) -> bool {
    exists|i: int| 0 <= i < reg.len() && entry_matches(#[trigger] reg[i], name)
}

/// The first index at or after `i` whose entry stores `name`, or -1.
pub open spec fn find_from(reg: Seq<RegEntryView>, name: Seq<char>, i: int) -> int
    decreases reg.len() - i,
{
    if !(0 <= i < reg.len()) {
        -1
    } else if entry_matches(reg[i], name) {
        i
    } else {
        find_from(reg, name, i + 1)
    }
}

pub proof fn lemma_find_from(reg: Seq<RegEntryView>, name: Seq<char>, i: int)
    requires
        0 <= i <= reg.len(),
    ensures
        ({
            let r = find_from(reg, name, i);
            &&& r == -1 ==> forall|k: int| i <= k < reg.len() ==> !entry_matches(
                #[trigger] reg[k],
                name,
            )
            &&& r != -1 ==> i <= r < reg.len() && entry_matches(reg[r], name) && forall|k: int|
                i <= k < r ==> !entry_matches(#[trigger] reg[k], name)
        }),
    decreases reg.len() - i,
{
    if i < reg.len() && !entry_matches(reg[i], name) {
        lemma_find_from(reg, name, i + 1);
    }
}

/// Loading the record a present entry stores.
pub open spec fn load_entry(e: RegEntryView) -> Result<WorkspaceView, Error> {
    match e.content {
        None => Err(Error::Read),
        Some(t) => match spec_decode(t) {
            Ok(w) => Ok(w),
            Err(pe) => Err(Error::Parse(pe)),
        },
    }
}

/// The three-way outcome of looking a name up: absent, present and
/// readable, or present but damaged.
pub enum Lookup {
    /// No entry stores the name.
    NotFound,
    /// The stored record.
    Found(Workspace),
    /// An entry exists but its record cannot be loaded.
    Invalid(Error),
}

/// Model of `Lookup`.
#[verifier::ext_equal]
pub enum LookupView {
    NotFound,
    Found(WorkspaceView),
    Invalid(Error),
}

impl View for Lookup {
    type V = LookupView;

    open spec fn view(&self) -> LookupView {
        match self {
            Lookup::NotFound => LookupView::NotFound,
            Lookup::Found(w) => LookupView::Found(w@),
            Lookup::Invalid(e) => LookupView::Invalid(*e),
        }
    }
}

/// What looking `name` up in the registry model yields.
pub open spec fn spec_get(reg: Seq<RegEntryView>, name: Seq<char>) -> LookupView {
    let r = find_from(reg, name, 0);
    if r == -1 {
        LookupView::NotFound
    } else {
        match load_entry(reg[r]) {
            Ok(w) => LookupView::Found(w),
            Err(e) => LookupView::Invalid(e),
        }
    }
}

/// One row of the bulk listing: whatever name could be derived, and
/// the loaded record or the per-entry failure. A damaged entry is a
/// row, never an abort.
pub struct ListingRow {
    pub name: Option<String>,
    pub loaded: Result<Workspace, Error>,
}

/// Model of `ListingRow`.
#[verifier::ext_equal]
pub struct ListingRowView {
    pub name: Option<Seq<char>>,
    pub loaded: Result<WorkspaceView, Error>,
}

impl View for ListingRow {
    type V = ListingRowView;

    open spec fn view(&self) -> ListingRowView {
        ListingRowView {
            name: self.name.deep_view(),
            loaded: match &self.loaded {
                Ok(w) => Ok(w@),
                Err(e) => Err(*e),
            },
        }
    }
}

pub open spec fn row_of(e: RegEntryView) -> ListingRowView {
    ListingRowView { name: e.stem, loaded: load_entry(e) }
}

/// The listing's rows: one per record entry, in directory order;
/// other entries are silently skipped.
pub open spec fn spec_rows(reg: Seq<RegEntryView>) -> Seq<ListingRowView>
    decreases reg.len(),
{
    if reg.len() == 0 {
        Seq::empty()
    } else {
        (if is_record_entry(reg[0]) {
            seq![row_of(reg[0])]
        } else {
            Seq::empty()
        }) + spec_rows(reg.drop_first())
    }
}

/// The views of a sequence of rows.
pub open spec fn rows_views(s: Seq<ListingRow>) -> Seq<ListingRowView> {
    Seq::new(s.len(), |i: int| s[i]@)
}

/// A directory snapshot of the registry root.
pub struct Registry {
    entries: Vec<RegEntry>,
}

impl View for Registry {
    type V = Seq<RegEntryView>;

    closed spec fn view(&self) -> Seq<RegEntryView> {
        Seq::new(self.entries@.len(), |i: int| self.entries@[i]@)
    }
}

/// Whether `e` stores `name`.
fn entry_matches_exec(e: &RegEntry, name: &str) -> (r: bool)
    ensures
        r == entry_matches(e@, name@),
{
    if !e.is_file {
        return false;
    }
    let ext_ok = match &e.ext {
        Some(x) => crate::codec::str_eq(x.as_str(), "toml"),
        None => false,
    };
    if !ext_ok {
        return false;
    }
    match &e.stem {
        Some(s) => crate::codec::str_eq(s.as_str(), name),
        None => false,
    }
}

impl Registry {
    /// The registry's well-formedness: no name stored twice.
    pub open spec fn wf(&self) -> bool {
        spec_wf(self@)
    }

    /// An empty snapshot.
    pub fn new() -> (r: Registry)
        ensures
            r@ =~= Seq::<RegEntryView>::empty(),
            r.wf(),
    {
        let r = Registry { entries: Vec::new() };
        proof {
            assert(r@ =~= Seq::<RegEntryView>::empty());
        }
        r
    }

    /// Takes one directory entry into the snapshot. Refused only when
    /// the entry would store a name the snapshot already stores, which
    /// a real directory cannot produce.
    pub fn push_entry(&mut self, e: RegEntry) -> (r: bool)
        requires
            old(self).wf(),
        ensures
            final(self).wf(),
            r ==> final(self)@ == old(self)@.push(e@),
            !r ==> final(self)@ == old(self)@ && (match e@.stem {
                Some(s) => is_record_entry(e@) && spec_exists(old(self)@, s),
                None => false,
            }),
    {
        let taken = match &e.stem {
            Some(s) => {
                let stored = Self::exists_in(self, s.as_str());
                stored && e.is_file && (match &e.ext {
                    Some(x) => crate::codec::str_eq(x.as_str(), "toml"),
                    None => false,
                })
            },
            None => false,
        };
        if taken {
            return false;
        }
        let ghost prev = self@;
        let ghost ev = e@;
        self.entries.push(e);
        proof {
            assert(self@ =~= prev.push(ev));
            assert forall|i: int, j: int|
                0 <= i < j < self@.len() && is_record_entry(#[trigger] self@[i]) && is_record_entry(
                    #[trigger] self@[j],
                ) implies !(self@[i].stem is Some && self@[i].stem == self@[j].stem) by {
                if j == self@.len() - 1 {
                    if self@[i].stem is Some && self@[i].stem == ev.stem && is_record_entry(
                        self@[i],
                    ) && is_record_entry(ev) {
                        let s = ev.stem->0;
                        assert(entry_matches(prev[i], s));
                        assert(spec_exists(prev, s));
                    }
                } else {
                    assert(self@[i] == prev[i] && self@[j] == prev[j]);
                }
            }
        }
        true
    }

    /// Whether a storage location for `name` exists, parseable or not.
    fn exists_in(&self, name: &str) -> (r: bool)
        ensures
            r == spec_exists(self@, name@),
    {
        let n = self.entries.len();
        let mut i: usize = 0;
        while i < n
            invariant
                i <= n,
                n == self.entries@.len(),
                forall|k: int| 0 <= k < i ==> !entry_matches(#[trigger] self@[k], name@),
            decreases n - i,
        {
            if entry_matches_exec(&self.entries[i], name) {
                proof {
                    assert(entry_matches(self@[i as int], name@));
                }
                return true;
            }
            i = i + 1;
        }
        proof {
            if spec_exists(self@, name@) {
                let k = choose|k: int|
                    0 <= k < self@.len() && entry_matches(#[trigger] self@[k], name@);
                assert(!entry_matches(self@[k], name@));
            }
        }
        false
    }

    /// The first entry storing `name`, if any.
    fn find_in(&self, name: &str) -> (r: Option<usize>)
        ensures
            match r {
                Some(i) => find_from(self@, name@, 0) == i as int && i < self.entries@.len(),
                None => find_from(self@, name@, 0) == -1,
            },
            self.entries@.len() == self@.len(),
    {
        let n = self.entries.len();
        let mut i: usize = 0;
        while i < n
            invariant
                i <= n,
                n == self.entries@.len(),
                find_from(self@, name@, 0) == find_from(self@, name@, i as int),
            decreases n - i,
        {
            if entry_matches_exec(&self.entries[i], name) {
                return Some(i);
            }
            i = i + 1;
        }
        None
    }

    /// Stores a new record under `name`: refused, with the registry
    /// unchanged, exactly when the name is already taken.
    pub fn create(&mut self, name: &str, w: &Workspace) -> (r: Result<(), OpError>)
        requires
            old(self).wf(),
        ensures
            final(self).wf(),
            match r {
                Err(e) => e == OpError::AlreadyExists && spec_exists(old(self)@, name@)
                    && final(self)@ == old(self)@,
                Ok(()) => !spec_exists(old(self)@, name@) && final(self)@ == old(self)@.push(
                    RegEntryView {
                        stem: Some(name@),
                        ext: Some("toml"@),
                        is_file: true,
                        content: Some(spec_encode(w@)),
                    },
                ),
            },
    {
        if Self::exists_in(self, name) {
            return Err(OpError::AlreadyExists);
        }
        let text = encode(w);
        let e = RegEntry {
            stem: Some(name.to_owned()),
            ext: Some("toml".to_owned()),
            is_file: true,
            content: Some(text),
        };
        proof {
            reveal_strlit("toml");
        }
        let ok = self.push_entry(e);
        proof {
            assert(ok);
        }
        Ok(())
    }

    /// Removes the storage location for `name` outright: refused, with
    /// the registry unchanged, exactly when none exists.
    pub fn delete(&mut self, name: &str) -> (r: Result<(), OpError>)
        requires
            old(self).wf(),
        ensures
            final(self).wf(),
            match r {
                Err(e) => e == OpError::NotFound && !spec_exists(old(self)@, name@) && final(self)@
                    == old(self)@,
                Ok(()) => spec_exists(old(self)@, name@) && final(self)@ == old(self)@.remove(
                    find_from(old(self)@, name@, 0),
                ) && !spec_exists(final(self)@, name@),
            },
    {
        proof {
            lemma_find_from(self@, name@, 0);
        }
        match Self::find_in(self, name) {
            None => {
                proof {
                    if spec_exists(self@, name@) {
                        let k = choose|k: int|
                            0 <= k < self@.len() && entry_matches(#[trigger] self@[k], name@);
                        assert(!entry_matches(self@[k], name@));
                    }
                }
                Err(OpError::NotFound)
            },
            Some(i) => {
                let ghost prev = self@;
                let ghost iv = i as int;
                self.entries.remove(i);
                proof {
                    assert(self@ =~= prev.remove(iv));
                    lemma_wf_remove(prev, iv);
                    lemma_remove_no_match(prev, iv, name@);
                }
                Ok(())
            },
        }
    }

    /// Moves the storage location of `old_name` to `new_name`, its
    /// content untouched. Refused, with the registry unchanged, when
    /// `old_name` does not exist or `new_name` already does.
    pub fn rename(&mut self, old_name: &str, new_name: &str) -> (r: Result<(), OpError>)
        requires
            old(self).wf(),
        ensures
            final(self).wf(),
            match r {
                Err(e) => final(self)@ == old(self)@ && (if !spec_exists(old(self)@, old_name@) {
                    e == OpError::NotFound
                } else {
                    e == OpError::AlreadyExists && spec_exists(old(self)@, new_name@)
                }),
                Ok(()) => {
                    let i = find_from(old(self)@, old_name@, 0);
                    &&& spec_exists(old(self)@, old_name@)
                    &&& !spec_exists(old(self)@, new_name@)
                    &&& !spec_exists(final(self)@, old_name@)
                    &&& spec_exists(final(self)@, new_name@)
                    &&& spec_get(final(self)@, new_name@) == spec_get(old(self)@, old_name@)
                    &&& final(self)@ == old(self)@.remove(i).push(
                        RegEntryView {
                            stem: Some(new_name@),
                            ext: old(self)@[i].ext,
                            is_file: old(self)@[i].is_file,
                            content: old(self)@[i].content,
                        },
                    )
                },
            },
    {
        proof {
            lemma_find_from(self@, old_name@, 0);
        }
        let found = match Self::find_in(self, old_name) {
            None => None,
            Some(i) => Some(i),
        };
        if found.is_none() {
            proof {
                if spec_exists(self@, old_name@) {
                    let k = choose|k: int|
                        0 <= k < self@.len() && entry_matches(#[trigger] self@[k], old_name@);
                    assert(!entry_matches(self@[k], old_name@));
                }
            }
            return Err(OpError::NotFound);
        }
        if Self::exists_in(self, new_name) {
            return Err(OpError::AlreadyExists);
        }
        let i = found.unwrap();
        let ghost prev = self@;
        let ghost iv = i as int;
        let e = self.entries.remove(i);
        let renamed = RegEntry {
            stem: Some(new_name.to_owned()),
            ext: e.ext,
            is_file: e.is_file,
            content: e.content,
        };
        let ghost rv = renamed@;
        self.entries.push(renamed);
        proof {
            assert(self@ =~= prev.remove(iv).push(rv));
            lemma_rename_shape(prev, iv, old_name@, new_name@, rv, self@);
        }
        Ok(())
    }
}

/// Removing an entry keeps the registry well-formed.
proof fn lemma_wf_remove(reg: Seq<RegEntryView>, i: int)
    requires
        spec_wf(reg),
        0 <= i < reg.len(),
    ensures
        spec_wf(reg.remove(i)),
{
    let r2 = reg.remove(i);
    assert forall|a: int, b: int|
        0 <= a < b < r2.len() && is_record_entry(#[trigger] r2[a]) && is_record_entry(
            #[trigger] r2[b],
        ) implies !(r2[a].stem is Some && r2[a].stem == r2[b].stem) by {
        let a0 = if a < i {
            a
        } else {
            a + 1
        };
        let b0 = if b < i {
            b
        } else {
            b + 1
        };
        assert(r2[a] == reg[a0] && r2[b] == reg[b0]);
    }
}

/// After removing the only entry storing `name`, none stores it.
proof fn lemma_remove_no_match(reg: Seq<RegEntryView>, i: int, name: Seq<char>)
    requires
        spec_wf(reg),
        0 <= i < reg.len(),
        entry_matches(reg[i], name),
    ensures
        !spec_exists(reg.remove(i), name),
{
    let r2 = reg.remove(i);
    if spec_exists(r2, name) {
        let k = choose|k: int| 0 <= k < r2.len() && entry_matches(#[trigger] r2[k], name);
        let k0 = if k < i {
            k
        } else {
            k + 1
        };
        assert(r2[k] == reg[k0]);
        assert(entry_matches(reg[k0], name));
        if k0 < i {
            assert(!(reg[k0].stem is Some && reg[k0].stem == reg[i].stem));
        } else {
            assert(!(reg[i].stem is Some && reg[i].stem == reg[k0].stem));
        }
    }
}

/// What renaming an entry does to existence and lookup.
proof fn lemma_rename_shape(
    reg: Seq<RegEntryView>,
    i: int,
    old_name: Seq<char>,
    new_name: Seq<char>,
    rv: RegEntryView,
    reg2: Seq<RegEntryView>,
)
    requires
        spec_wf(reg),
        0 <= i < reg.len(),
        entry_matches(reg[i], old_name),
        !spec_exists(reg, new_name),
        rv.stem == Some(new_name),
        rv.ext == reg[i].ext,
        rv.is_file == reg[i].is_file,
        rv.content == reg[i].content,
        reg2 == reg.remove(i).push(rv),
    ensures
        spec_wf(reg2),
        !spec_exists(reg2, old_name),
        spec_exists(reg2, new_name),
        spec_get(reg2, new_name) == spec_get(reg, old_name),
{
    let rem = reg.remove(i);
    lemma_wf_remove(reg, i);
    lemma_remove_no_match(reg, i, old_name);
    assert(entry_matches(rv, new_name));
    assert(old_name != new_name) by {
        assert(entry_matches(reg[i], old_name));
        if old_name == new_name {
            assert(spec_exists(reg, new_name));
        }
    }

    // No entry that stayed stores either name.
    assert forall|k: int| 0 <= k < rem.len() implies !entry_matches(
        #[trigger] rem[k],
        old_name,
    ) by {
        assert(!spec_exists(rem, old_name));
        if entry_matches(rem[k], old_name) {
            assert(spec_exists(rem, old_name));
        }
    }
    assert forall|k: int| 0 <= k < rem.len() implies !entry_matches(
        #[trigger] rem[k],
        new_name,
    ) by {
        let k0 = if k < i {
            k
        } else {
            k + 1
        };
        assert(rem[k] == reg[k0]);
        if entry_matches(reg[k0], new_name) {
            assert(spec_exists(reg, new_name));
        }
    }

    // Well-formed: the renamed entry is the only one storing new_name.
    assert forall|a: int, b: int|
        0 <= a < b < reg2.len() && is_record_entry(#[trigger] reg2[a]) && is_record_entry(
            #[trigger] reg2[b],
        ) implies !(reg2[a].stem is Some && reg2[a].stem == reg2[b].stem) by {
        if b == reg2.len() - 1 {
            assert(reg2[a] == rem[a]);
            assert(reg2[b] == rv);
            if reg2[a].stem is Some && reg2[a].stem == Some(new_name) && is_record_entry(
                reg2[a],
            ) {
                assert(entry_matches(rem[a], new_name));
            }
        } else {
            assert(reg2[a] == rem[a] && reg2[b] == rem[b]);
        }
    }

    // old_name is gone.
    if spec_exists(reg2, old_name) {
        let k = choose|k: int| 0 <= k < reg2.len() && entry_matches(#[trigger] reg2[k], old_name);
        if k < rem.len() {
            assert(entry_matches(rem[k], old_name));
        } else {
            assert(reg2[k] == rv);
        }
    }

    // new_name is stored by the renamed entry alone, so lookup finds
    // it, with the content carried over unchanged.
    assert(entry_matches(reg2[reg2.len() - 1], new_name));
    lemma_find_from(reg2, new_name, 0);
    let f2 = find_from(reg2, new_name, 0);
    assert(f2 != -1);
    assert(f2 == reg2.len() - 1) by {
        if f2 < reg2.len() - 1 {
            assert(entry_matches(rem[f2], new_name));
        }
    }
    lemma_find_from(reg, old_name, 0);
    let f1 = find_from(reg, old_name, 0);
    assert(f1 != -1);
    assert(f1 == i) by {
        if f1 < i {
            assert(is_record_entry(reg[f1]) && is_record_entry(reg[i]));
            assert(!(reg[f1].stem is Some && reg[f1].stem == reg[i].stem));
        } else if f1 > i {
            assert(!entry_matches(reg[i], old_name));
        }
    }
    assert(load_entry(reg2[f2]) == load_entry(reg[i]));
}

impl Workspace {
    /// True iff a storage location for `name` exists in the registry,
    /// whether or not its content is parseable.
    pub fn exists_entry(reg: &Registry, name: &str) -> (r: bool)
        ensures
            r == spec_exists(reg@, name@),
    {
        Registry::exists_in(reg, name)
    }

    /// Looks `name` up: absent, present, or present but unreadable —
    /// three outcomes a caller must keep apart.
    pub fn get(reg: &Registry, name: &str) -> (r: Lookup)
        ensures
            r@ == spec_get(reg@, name@),
    {
        match Registry::find_in(reg, name) {
            None => Lookup::NotFound,
            Some(i) => {
                let e = reg.entries_ref(i);
                match Self::load(e) {
                    Ok(w) => Lookup::Found(w),
                    Err(er) => Lookup::Invalid(er),
                }
            },
        }
    }

    /// Loads the record a present entry stores.
    fn load(e: &RegEntry) -> (r: Result<Workspace, Error>)
        ensures
            match r {
                Ok(w) => load_entry(e@) == Ok::<WorkspaceView, Error>(w@),
                Err(er) => load_entry(e@) == Err::<WorkspaceView, Error>(er),
            },
    {
        match &e.content {
            None => Err(Error::Read),
            Some(t) => match decode(t.as_str()) {
                Ok(w) => Ok(w),
                Err(pe) => Err(Error::Parse(pe)),
            },
        }
    }

    /// Every record entry of the registry, in directory order: one row
    /// per entry, degraded rows included — one damaged file never
    /// hides the rest. Entries that are no record files are skipped.
    pub fn all(reg: &Registry) -> (r: Vec<ListingRow>)
        ensures
            rows_views(r@) == spec_rows(reg@),
    {
        let n = reg.entries_len();
        let mut out: Vec<ListingRow> = Vec::new();
        proof {
            assert(reg@.subrange(0, reg@.len() as int) =~= reg@);
            assert(rows_views(out@) + spec_rows(reg@.subrange(0, reg@.len() as int)) =~= spec_rows(
                reg@,
            ));
        }
        let mut i: usize = 0;
        while i < n
            invariant
                i <= n,
                n == reg@.len(),
                spec_rows(reg@) == rows_views(out@) + spec_rows(
                    reg@.subrange(i as int, reg@.len() as int),
                ),
            decreases n - i,
        {
            let ghost rest = reg@.subrange(i as int, reg@.len() as int);
            let ghost before = out@;
            proof {
                assert(rest[0] == reg@[i as int]);
                assert(rest.drop_first() =~= reg@.subrange(i + 1, reg@.len() as int));
            }
            let e = reg.entries_ref(i);
            let keep = e.is_file && (match &e.ext {
                Some(x) => crate::codec::str_eq(x.as_str(), "toml"),
                None => false,
            });
            if keep {
                let name = match &e.stem {
                    Some(s) => Some(s.clone()),
                    None => None,
                };
                let loaded = Self::load(e);
                let row = ListingRow { name, loaded };
                proof {
                    assert(row@ =~= row_of(reg@[i as int]));
                }
                out.push(row);
                proof {
                    assert(rows_views(out@) =~= rows_views(before).push(row_of(reg@[i as int])));
                    assert(rows_views(out@) + spec_rows(rest.drop_first()) =~= rows_views(before)
                        + spec_rows(rest));
                }
            } else {
                proof {
                    assert(spec_rows(rest) =~= spec_rows(rest.drop_first()));
                }
            }
            i = i + 1;
        }
        proof {
            assert(spec_rows(reg@.subrange(n as int, reg@.len() as int)) =~= Seq::<
                ListingRowView,
            >::empty());
            assert(rows_views(out@) =~= spec_rows(reg@));
        }
        out
    }

    /// The file that stores the workspace called `name` under `root`:
    /// `root/name.toml`.
    pub fn file_path(root: &str, name: &str) -> (r: String)
        ensures
            r@ == root@ + "/"@ + name@ + ".toml"@,
    {
        let mut out = root.to_owned();
        out.append("/");
        out.append(name);
        out.append(".toml");
        out
    }
}

impl Registry {
    /// How many directory entries the snapshot holds.
    pub fn entries_len(&self) -> (r: usize)
        ensures
            r == self@.len(),
    {
        self.entries.len()
    }

    /// The entry at `i`.
    pub fn entries_ref(&self, i: usize) -> (r: &RegEntry)
        requires
            i < self@.len(),
        ensures
            r@ == self@[i as int],
    {
        &self.entries[i]
    }
}

} // verus!
