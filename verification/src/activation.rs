use vstd::prelude::*;

use crate::record::{Workspace, WorkspaceView};

verus! {

// ---------------------------------------------------------------------------
// The activation engine.
//
// Opening a workspace follows a fixed pipeline: change into its
// directory; stop there if only the directory was asked for; run the
// local commands in the invoking shell; spawn each external command in
// a terminal window; spawn each background command through a shell;
// open each browser tab. Every stage after the first needs a launcher
// program from the environment: when it is missing, that stage alone
// collapses to a single configuration warning and the later stages
// still run.
//
// The engine computes the full plan as a value: one step per action or
// warning, in execution order. The plan depends only on the record and
// the environment — never on how an earlier step fared — so a failed
// spawn cannot disturb its siblings or a later stage. The shell around
// the library walks the steps in order, performing each one and
// reporting failures as warnings.
// ---------------------------------------------------------------------------

/// The launcher programs the environment offers, each absent when its
/// variable is unset.
pub struct ActivationEnv {
    /// The terminal program for external commands.
    pub terminal: Option<String>,
    /// The shell for background commands.
    pub shell: Option<String>,
    /// The browser for tabs.
    pub browser: Option<String>,
}

/// Model of `ActivationEnv`.
#[verifier::ext_equal]
pub struct ActivationEnvView {
    pub terminal: Option<Seq<char>>,
    pub shell: Option<Seq<char>>,
    pub browser: Option<Seq<char>>,
}

impl View for ActivationEnv {
    type V = ActivationEnvView;

    open spec fn view(&self) -> ActivationEnvView {
        ActivationEnvView {
            terminal: self.terminal.deep_view(),
            shell: self.shell.deep_view(),
            browser: self.browser.deep_view(),
        }
    }
}

/// The stage a missing launcher silences, reported once in its place.
#[derive(PartialEq, Eq, Structural, Clone, Copy, Debug)]
pub enum ConfigWarning {
    /// External commands were present but no terminal program is set.
    TerminalUnset,
    /// Background commands were present but no shell is set.
    ShellUnset,
    /// Tabs were present but no browser is set.
    BrowserUnset,
}

/// One step of an activation plan, in execution order.
pub enum Step {
    /// Change the invoking shell's directory.
    ChangeDir { dir: String },
    /// Run one local command, synchronously, in the invoking shell.
    RunLocal { command: String },
    /// Spawn one external command detached in a terminal window,
    /// working directory set to the workspace's.
    SpawnTerminal { terminal: String, command: String, dir: String },
    /// Spawn one background command detached through the shell,
    /// working directory set to the workspace's.
    SpawnShell { shell: String, command: String, dir: String },
    /// Open one browser tab, detached.
    OpenTab { browser: String, url: String },
    /// Report a stage skipped for a missing launcher.
    Warn { warning: ConfigWarning },
}

/// Model of `Step`.
#[verifier::ext_equal]
pub enum StepView {
    ChangeDir { dir: Seq<char> },
    RunLocal { command: Seq<char> },
    SpawnTerminal { terminal: Seq<char>, command: Seq<char>, dir: Seq<char> },
    SpawnShell { shell: Seq<char>, command: Seq<char>, dir: Seq<char> },
    OpenTab { browser: Seq<char>, url: Seq<char> },
    Warn { warning: ConfigWarning },
}

impl View for Step {
    type V = StepView;

    open spec fn view(&self) -> StepView {
        match self {
            Step::ChangeDir { dir } => StepView::ChangeDir { dir: dir@ },
            Step::RunLocal { command } => StepView::RunLocal { command: command@ },
            Step::SpawnTerminal { terminal, command, dir } => StepView::SpawnTerminal {
                terminal: terminal@,
                command: command@,
                dir: dir@,
            },
            Step::SpawnShell { shell, command, dir } => StepView::SpawnShell {
                shell: shell@,
                command: command@,
                dir: dir@,
            },
            Step::OpenTab { browser, url } => StepView::OpenTab { browser: browser@, url: url@ },
            Step::Warn { warning } => StepView::Warn { warning: *warning },
        }
    }
}

/// The views of a sequence of steps.
pub open spec fn steps_views(s: Seq<Step>) -> Seq<StepView> {
    Seq::new(s.len(), |i: int| s[i]@)
}

/// One local-command step per command, in order.
pub open spec fn local_steps(cmds: Seq<Seq<char>>, i: int) -> Seq<StepView>
    decreases cmds.len() - i,
{
    if !(0 <= i < cmds.len()) {
        Seq::empty()
    } else {
        seq![StepView::RunLocal { command: cmds[i] }] + local_steps(cmds, i + 1)
    }
}

/// One terminal-spawn step per external command, in order.
pub open spec fn terminal_steps(cmds: Seq<Seq<char>>, term: Seq<char>, dir: Seq<char>, i: int) -> Seq<
    StepView,
>
    decreases cmds.len() - i,
{
    if !(0 <= i < cmds.len()) {
        Seq::empty()
    } else {
        seq![StepView::SpawnTerminal { terminal: term, command: cmds[i], dir }] + terminal_steps(
            cmds,
            term,
            dir,
            i + 1,
        )
    }
}

/// One shell-spawn step per background command, in order.
pub open spec fn shell_steps(cmds: Seq<Seq<char>>, shell: Seq<char>, dir: Seq<char>, i: int) -> Seq<
    StepView,
>
    decreases cmds.len() - i,
{
    if !(0 <= i < cmds.len()) {
        Seq::empty()
    } else {
        seq![StepView::SpawnShell { shell, command: cmds[i], dir }] + shell_steps(
            cmds,
            shell,
            dir,
            i + 1,
        )
    }
}

/// One tab step per URL, in order.
pub open spec fn tab_steps(tabs: Seq<Seq<char>>, browser: Seq<char>, i: int) -> Seq<StepView>
    decreases tabs.len() - i,
{
    if !(0 <= i < tabs.len()) {
        Seq::empty()
    } else {
        seq![StepView::OpenTab { browser, url: tabs[i] }] + tab_steps(tabs, browser, i + 1)
    }
}

/// The external-command stage: skipped when empty; one warning in its
/// place when no terminal is set; otherwise one spawn per command.
pub open spec fn external_stage(cmds: Seq<Seq<char>>, terminal: Option<Seq<char>>, dir: Seq<
    char,
>) -> Seq<StepView> {
    if cmds.len() == 0 {
        Seq::empty()
    } else {
        match terminal {
            None => seq![StepView::Warn { warning: ConfigWarning::TerminalUnset }],
            Some(t) => terminal_steps(cmds, t, dir, 0),
        }
    }
}

/// The background-command stage, shaped like the external one.
pub open spec fn background_stage(cmds: Seq<Seq<char>>, shell: Option<Seq<char>>, dir: Seq<
    char,
>) -> Seq<StepView> {
    if cmds.len() == 0 {
        Seq::empty()
    } else {
        match shell {
            None => seq![StepView::Warn { warning: ConfigWarning::ShellUnset }],
            Some(s) => shell_steps(cmds, s, dir, 0),
        }
    }
}

/// The tab stage, shaped like the external one.
pub open spec fn tab_stage(tabs: Seq<Seq<char>>, browser: Option<Seq<char>>) -> Seq<StepView> {
    if tabs.len() == 0 {
        Seq::empty()
    } else {
        match browser {
            None => seq![StepView::Warn { warning: ConfigWarning::BrowserUnset }],
            Some(b) => tab_steps(tabs, b, 0),
        }
    }
}

/// The whole plan: the directory change always comes first and, with
/// the directory-only flag, alone; then the four stages in their fixed
/// order, each independent of how any other fares.
pub open spec fn spec_plan(w: WorkspaceView, env: ActivationEnvView, dir_only: bool) -> Seq<
    StepView,
> {
    seq![StepView::ChangeDir { dir: w.path }] + (if dir_only {
        Seq::<StepView>::empty()
    } else {
        local_steps(w.commands.local, 0) + external_stage(w.commands.external, env.terminal, w.path)
            + background_stage(w.commands.background, env.shell, w.path) + tab_stage(
            w.tabs,
            env.browser,
        )
    })
}

fn emit_local(out: &mut Vec<Step>, cmds: &Vec<String>)
    ensures
        steps_views(final(out)@) == steps_views(old(out)@) + local_steps(cmds.deep_view(), 0),
{
    let ghost dv = cmds.deep_view();
    let ghost init = steps_views(out@);
    let n = cmds.len();
    let mut i: usize = 0;
    proof {
        assert(init + local_steps(dv, 0) =~= init + local_steps(dv, 0));
    }
    while i < n
        invariant
            i <= n,
            n == cmds@.len(),
            dv == cmds.deep_view(),
            init == steps_views(old(out)@),
            steps_views(out@) + local_steps(dv, i as int) == init + local_steps(dv, 0),
        decreases n - i,
    {
        let ghost before = steps_views(out@);
        out.push(Step::RunLocal { command: cmds[i].clone() });
        proof {
            assert(steps_views(out@) =~= before.push(StepView::RunLocal { command: dv[i as int] }));
            assert(local_steps(dv, i as int) == seq![StepView::RunLocal { command: dv[i as int] }]
                + local_steps(dv, i + 1));
            assert(steps_views(out@) + local_steps(dv, i + 1) =~= before + local_steps(
                dv,
                i as int,
            ));
        }
        i = i + 1;
    }
    proof {
        assert(local_steps(dv, n as int) =~= Seq::<StepView>::empty());
        assert(steps_views(final(out)@) =~= init + local_steps(dv, 0));
    }
}

fn emit_terminal(out: &mut Vec<Step>, cmds: &Vec<String>, term: &String, dir: &String)
    ensures
        steps_views(final(out)@) == steps_views(old(out)@) + terminal_steps(
            cmds.deep_view(),
            term@,
            dir@,
            0,
        ),
{
    let ghost dv = cmds.deep_view();
    let ghost init = steps_views(out@);
    let n = cmds.len();
    let mut i: usize = 0;
    while i < n
        invariant
            i <= n,
            n == cmds@.len(),
            dv == cmds.deep_view(),
            init == steps_views(old(out)@),
            steps_views(out@) + terminal_steps(dv, term@, dir@, i as int) == init + terminal_steps(
                dv,
                term@,
                dir@,
                0,
            ),
        decreases n - i,
    {
        let ghost before = steps_views(out@);
        out.push(
            Step::SpawnTerminal {
                terminal: term.clone(),
                command: cmds[i].clone(),
                dir: dir.clone(),
            },
        );
        proof {
            let sv = StepView::SpawnTerminal { terminal: term@, command: dv[i as int], dir: dir@ };
            assert(steps_views(out@) =~= before.push(sv));
            assert(terminal_steps(dv, term@, dir@, i as int) == seq![sv] + terminal_steps(
                dv,
                term@,
                dir@,
                i + 1,
            ));
            assert(steps_views(out@) + terminal_steps(dv, term@, dir@, i + 1) =~= before
                + terminal_steps(dv, term@, dir@, i as int));
        }
        i = i + 1;
    }
    proof {
        assert(terminal_steps(dv, term@, dir@, n as int) =~= Seq::<StepView>::empty());
        assert(steps_views(final(out)@) =~= init + terminal_steps(dv, term@, dir@, 0));
    }
}

fn emit_shell(out: &mut Vec<Step>, cmds: &Vec<String>, shell: &String, dir: &String)
    ensures
        steps_views(final(out)@) == steps_views(old(out)@) + shell_steps(
            cmds.deep_view(),
            shell@,
            dir@,
            0,
        ),
{
    let ghost dv = cmds.deep_view();
    let ghost init = steps_views(out@);
    let n = cmds.len();
    let mut i: usize = 0;
    while i < n
        invariant
            i <= n,
            n == cmds@.len(),
            dv == cmds.deep_view(),
            init == steps_views(old(out)@),
            steps_views(out@) + shell_steps(dv, shell@, dir@, i as int) == init + shell_steps(
                dv,
                shell@,
                dir@,
                0,
            ),
        decreases n - i,
    {
        let ghost before = steps_views(out@);
        out.push(
            Step::SpawnShell { shell: shell.clone(), command: cmds[i].clone(), dir: dir.clone() },
        );
        proof {
            let sv = StepView::SpawnShell { shell: shell@, command: dv[i as int], dir: dir@ };
            assert(steps_views(out@) =~= before.push(sv));
            assert(shell_steps(dv, shell@, dir@, i as int) == seq![sv] + shell_steps(
                dv,
                shell@,
                dir@,
                i + 1,
            ));
            assert(steps_views(out@) + shell_steps(dv, shell@, dir@, i + 1) =~= before
                + shell_steps(dv, shell@, dir@, i as int));
        }
        i = i + 1;
    }
    proof {
        assert(shell_steps(dv, shell@, dir@, n as int) =~= Seq::<StepView>::empty());
        assert(steps_views(final(out)@) =~= init + shell_steps(dv, shell@, dir@, 0));
    }
}

fn emit_tabs(out: &mut Vec<Step>, tabs: &Vec<String>, browser: &String)
    ensures
        steps_views(final(out)@) == steps_views(old(out)@) + tab_steps(
            tabs.deep_view(),
            browser@,
            0,
        ),
{
    let ghost dv = tabs.deep_view();
    let ghost init = steps_views(out@);
    let n = tabs.len();
    let mut i: usize = 0;
    while i < n
        invariant
            i <= n,
            n == tabs@.len(),
            dv == tabs.deep_view(),
            init == steps_views(old(out)@),
            steps_views(out@) + tab_steps(dv, browser@, i as int) == init + tab_steps(
                dv,
                browser@,
                0,
            ),
        decreases n - i,
    {
        let ghost before = steps_views(out@);
        out.push(Step::OpenTab { browser: browser.clone(), url: tabs[i].clone() });
        proof {
            let sv = StepView::OpenTab { browser: browser@, url: dv[i as int] };
            assert(steps_views(out@) =~= before.push(sv));
            assert(tab_steps(dv, browser@, i as int) == seq![sv] + tab_steps(dv, browser@, i + 1));
            assert(steps_views(out@) + tab_steps(dv, browser@, i + 1) =~= before + tab_steps(
                dv,
                browser@,
                i as int,
            ));
        }
        i = i + 1;
    }
    proof {
        assert(tab_steps(dv, browser@, n as int) =~= Seq::<StepView>::empty());
        assert(steps_views(final(out)@) =~= init + tab_steps(dv, browser@, 0));
    }
}

impl Workspace {
    /// The plan opening this workspace follows, in execution order:
    /// exactly the steps of the fixed pipeline, and nothing else.
    pub fn open(&self, env: &ActivationEnv, dir_only: bool) -> (r: Vec<Step>)
        ensures
            steps_views(r@) == spec_plan(self@, env@, dir_only),
    {
        let mut out: Vec<Step> = Vec::new();
        out.push(Step::ChangeDir { dir: self.path.clone() });
        let ghost cd = seq![StepView::ChangeDir { dir: self.path@ }];
        proof {
            assert(steps_views(out@) =~= cd);
        }
        if dir_only {
            proof {
                assert(steps_views(out@) =~= spec_plan(self@, env@, true));
            }
            return out;
        }
        emit_local(&mut out, &self.commands.local);
        let ghost after_local = steps_views(out@);
        if self.commands.external.len() > 0 {
            match &env.terminal {
                Some(t) => emit_terminal(&mut out, &self.commands.external, t, &self.path),
                None => {
                    let ghost before = steps_views(out@);
                    out.push(Step::Warn { warning: ConfigWarning::TerminalUnset });
                    proof {
                        assert(steps_views(out@) =~= before.push(
                            StepView::Warn { warning: ConfigWarning::TerminalUnset },
                        ));
                        assert(steps_views(out@) =~= before + external_stage(
                            self@.commands.external,
                            env@.terminal,
                            self@.path,
                        ));
                    }
                },
            }
        }
        let ghost after_external = steps_views(out@);
        proof {
            if self.commands.external.len() == 0 {
                assert(external_stage(self@.commands.external, env@.terminal, self@.path) =~= Seq::<
                    StepView,
                >::empty());
                assert(after_external =~= after_local + external_stage(
                    self@.commands.external,
                    env@.terminal,
                    self@.path,
                ));
            }
        }
        if self.commands.background.len() > 0 {
            match &env.shell {
                Some(s) => emit_shell(&mut out, &self.commands.background, s, &self.path),
                None => {
                    let ghost before = steps_views(out@);
                    out.push(Step::Warn { warning: ConfigWarning::ShellUnset });
                    proof {
                        assert(steps_views(out@) =~= before.push(
                            StepView::Warn { warning: ConfigWarning::ShellUnset },
                        ));
                        assert(steps_views(out@) =~= before + background_stage(
                            self@.commands.background,
                            env@.shell,
                            self@.path,
                        ));
                    }
                },
            }
        }
        let ghost after_background = steps_views(out@);
        proof {
            if self.commands.background.len() == 0 {
                assert(background_stage(self@.commands.background, env@.shell, self@.path) =~= Seq::<
                    StepView,
                >::empty());
                assert(after_background =~= after_external + background_stage(
                    self@.commands.background,
                    env@.shell,
                    self@.path,
                ));
            }
        }
        if self.tabs.len() > 0 {
            match &env.browser {
                Some(b) => emit_tabs(&mut out, &self.tabs, b),
                None => {
                    let ghost before = steps_views(out@);
                    out.push(Step::Warn { warning: ConfigWarning::BrowserUnset });
                    proof {
                        assert(steps_views(out@) =~= before.push(
                            StepView::Warn { warning: ConfigWarning::BrowserUnset },
                        ));
                        assert(steps_views(out@) =~= before + tab_stage(self@.tabs, env@.browser));
                    }
                },
            }
        }
        proof {
            if self.tabs.len() == 0 {
                assert(tab_stage(self@.tabs, env@.browser) =~= Seq::<StepView>::empty());
            }
            assert(steps_views(out@) =~= after_background + tab_stage(self@.tabs, env@.browser));
            assert(steps_views(out@) =~= spec_plan(self@, env@, false));
        }
        out
    }
}

// ---------------------------------------------------------------------------
// Laws of the plan.
// ---------------------------------------------------------------------------

/// DIRECTORY-ONLY SHORT-CIRCUIT: with the directory-only flag, the
/// plan is the directory change and nothing more, whatever the
/// record's lists hold.
pub proof fn lemma_dir_only(w: WorkspaceView, env: ActivationEnvView)
    ensures
        spec_plan(w, env, true) == seq![StepView::ChangeDir { dir: w.path }],
{
    assert(spec_plan(w, env, true) =~= seq![StepView::ChangeDir { dir: w.path }]);
}

/// STAGE GATING: with external commands present and no terminal set,
/// the external stage is exactly one configuration warning, and the
/// background and tab stages still follow, untouched.
pub proof fn lemma_stage_gating(w: WorkspaceView, env: ActivationEnvView)
    requires
        w.commands.external.len() > 0,
        env.terminal is None,
    ensures
        spec_plan(w, env, false) == seq![StepView::ChangeDir { dir: w.path }] + local_steps(
            w.commands.local,
            0,
        ) + seq![StepView::Warn { warning: ConfigWarning::TerminalUnset }] + background_stage(
            w.commands.background,
            env.shell,
            w.path,
        ) + tab_stage(w.tabs, env.browser),
{
    assert(external_stage(w.commands.external, env.terminal, w.path) == seq![StepView::Warn {
            warning: ConfigWarning::TerminalUnset,
        }]);
    assert(spec_plan(w, env, false) =~= seq![StepView::ChangeDir { dir: w.path }] + local_steps(
        w.commands.local,
        0,
    ) + seq![StepView::Warn { warning: ConfigWarning::TerminalUnset }] + background_stage(
        w.commands.background,
        env.shell,
        w.path,
    ) + tab_stage(w.tabs, env.browser));
}

/// PER-COMMAND ISOLATION: the background stage holds one spawn step
/// per command, each carrying its own command string, in order. The
/// plan is a function of the record and the environment alone, so no
/// step's failure can remove or change a sibling step.
pub proof fn lemma_per_command_isolation(
    cmds: Seq<Seq<char>>,
    shell: Seq<char>,
    dir: Seq<char>,
    i: int,
)
    requires
        0 <= i <= cmds.len(),
    ensures
        shell_steps(cmds, shell, dir, i).len() == cmds.len() - i,
        forall|k: int|
            0 <= k < cmds.len() - i ==> shell_steps(cmds, shell, dir, i)[k] == (StepView::SpawnShell {
                shell,
                command: cmds[i + k],
                dir,
            }),
    decreases cmds.len() - i,
{
    if i < cmds.len() {
        lemma_per_command_isolation(cmds, shell, dir, i + 1);
        let whole = shell_steps(cmds, shell, dir, i);
        let rest = shell_steps(cmds, shell, dir, i + 1);
        assert forall|k: int| 0 <= k < cmds.len() - i implies whole[k] == (StepView::SpawnShell {
            shell,
            command: cmds[i + k],
            dir,
        }) by {
            if k > 0 {
                assert(whole[k] == rest[k - 1]);
            }
        }
    }
}

} // verus!
