use vstd::prelude::*;

verus! {

/// The three ordered command lists a workspace runs on entry:
/// `local` in the invoking shell, `external` in new terminal windows,
/// `background` as detached shell children.
#[derive(Debug)]
pub struct Commands {
    pub local: Vec<String>,
    pub external: Vec<String>,
    pub background: Vec<String>,
}

/// A stored workspace record: the directory it refers to, the browser
/// tabs to open, and the commands to run. Its name is not part of the
/// record; the registry derives it from the storage location.
#[derive(Debug)]
pub struct Workspace {
    pub path: String,
    pub tabs: Vec<String>,
    pub commands: Commands,
}

/// Mathematical model of `Commands`: each list as a sequence of
/// character sequences.
#[verifier::ext_equal]
pub struct CommandsView {
    pub local: Seq<Seq<char>>,
    pub external: Seq<Seq<char>>,
    pub background: Seq<Seq<char>>,
}

/// Mathematical model of `Workspace`.
#[verifier::ext_equal]
pub struct WorkspaceView {
    pub path: Seq<char>,
    pub tabs: Seq<Seq<char>>,
    pub commands: CommandsView,
}

impl View for Commands {
    type V = CommandsView;

    open spec fn view(&self) -> CommandsView {
        CommandsView {
            local: self.local.deep_view(),
            external: self.external.deep_view(),
            background: self.background.deep_view(),
        }
    }
}

impl View for Workspace {
    type V = WorkspaceView;

    open spec fn view(&self) -> WorkspaceView {
        WorkspaceView {
            path: self.path@,
            tabs: self.tabs.deep_view(),
            commands: self.commands@,
        }
    }
}

/// A string the record format stores verbatim: free of the double
/// quote that delimits it and of the line break that delimits records'
/// lines.
pub open spec fn text_clean(s: Seq<char>) -> bool {
    forall|i: int| 0 <= i < s.len() ==> s[i] != '"' && s[i] != '\n'
}

pub open spec fn all_clean(v: Seq<Seq<char>>) -> bool {
    forall|i: int| 0 <= i < v.len() ==> text_clean(#[trigger] v[i])
}

/// A record every one of whose strings the codec stores verbatim;
/// encoding such a record round-trips exactly.
pub open spec fn record_clean(w: WorkspaceView) -> bool {
    &&& text_clean(w.path)
    &&& all_clean(w.tabs)
    &&& all_clean(w.commands.local)
    &&& all_clean(w.commands.external)
    &&& all_clean(w.commands.background)
}

impl Commands {
    /// Three empty command lists: the default for a record whose file
    /// does not mention commands.
    pub fn empty() -> (r: Commands)
        ensures
            r@.local =~= Seq::<Seq<char>>::empty(),
            r@.external =~= Seq::<Seq<char>>::empty(),
            r@.background =~= Seq::<Seq<char>>::empty(),
    {
        Commands { local: Vec::new(), external: Vec::new(), background: Vec::new() }
    }
}

} // verus!
