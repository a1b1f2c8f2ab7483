use workspace::activation::ActivationEnv;
use workspace::activation::ConfigWarning;
use workspace::activation::Step;
use workspace::record::Commands;
use workspace::record::Workspace;

fn full_record() -> Workspace {
    Workspace {
        path: "/work".to_string(),
        tabs: vec!["https://t1".to_string(), "https://t2".to_string()],
        commands: Commands {
            local: vec!["l1".to_string(), "l2".to_string()],
            external: vec!["e1".to_string()],
            background: vec!["b1".to_string(), "b2".to_string(), "b3".to_string()],
        },
    }
}

fn full_env() -> ActivationEnv {
    ActivationEnv {
        terminal: Some("xterm".to_string()),
        shell: Some("bash".to_string()),
        browser: Some("firefox".to_string()),
    }
}

#[test]
fn directory_only_short_circuits_everything() {
    let plan = full_record().open(&full_env(), true);
    assert_eq!(plan.len(), 1);
    assert!(matches!(&plan[0], Step::ChangeDir { dir } if dir == "/work"));
}

#[test]
fn stage_gating_unset_terminal_warns_once_and_later_stages_run() {
    let mut env = full_env();
    env.terminal = None;
    let plan = full_record().open(&env, false);
    // ChangeDir, two locals, one warning in place of the external
    // stage, three background spawns, two tabs.
    assert_eq!(plan.len(), 9);
    assert!(matches!(&plan[0], Step::ChangeDir { dir } if dir == "/work"));
    assert!(matches!(&plan[1], Step::RunLocal { command } if command == "l1"));
    assert!(matches!(&plan[2], Step::RunLocal { command } if command == "l2"));
    assert!(matches!(&plan[3], Step::Warn { warning: ConfigWarning::TerminalUnset }));
    assert!(matches!(&plan[4], Step::SpawnShell { command, .. } if command == "b1"));
    assert!(matches!(&plan[5], Step::SpawnShell { command, .. } if command == "b2"));
    assert!(matches!(&plan[6], Step::SpawnShell { command, .. } if command == "b3"));
    assert!(matches!(&plan[7], Step::OpenTab { url, .. } if url == "https://t1"));
    assert!(matches!(&plan[8], Step::OpenTab { url, .. } if url == "https://t2"));
    let warns = plan.iter().filter(|s| matches!(s, Step::Warn { .. })).count();
    assert_eq!(warns, 1);
}

#[test]
fn per_command_isolation_each_background_command_is_its_own_step() {
    // Three background commands give three independent spawn steps;
    // the plan never depends on how any spawn fares, so the first and
    // the third stand whatever happens to the second.
    let w = Workspace {
        path: "/work".to_string(),
        tabs: Vec::new(),
        commands: Commands {
            local: Vec::new(),
            external: Vec::new(),
            background: vec!["b1".to_string(), "b2".to_string(), "b3".to_string()],
        },
    };
    let plan = w.open(&full_env(), false);
    assert_eq!(plan.len(), 4);
    for (i, expected) in ["b1", "b2", "b3"].iter().enumerate() {
        match &plan[i + 1] {
            Step::SpawnShell { shell, command, dir } => {
                assert_eq!(shell, "bash");
                assert_eq!(command, expected);
                assert_eq!(dir, "/work");
            },
            other => panic!("step {} must be a shell spawn, was {:?}", i + 1, name_of(other)),
        }
    }
}

fn name_of(s: &Step) -> &'static str {
    match s {
        Step::ChangeDir { .. } => "ChangeDir",
        Step::RunLocal { .. } => "RunLocal",
        Step::SpawnTerminal { .. } => "SpawnTerminal",
        Step::SpawnShell { .. } => "SpawnShell",
        Step::OpenTab { .. } => "OpenTab",
        Step::Warn { .. } => "Warn",
    }
}

#[test]
fn full_plan_keeps_the_fixed_stage_order() {
    let plan = full_record().open(&full_env(), false);
    let names: Vec<&str> = plan.iter().map(name_of).collect();
    assert_eq!(
        names,
        vec![
            "ChangeDir",
            "RunLocal",
            "RunLocal",
            "SpawnTerminal",
            "SpawnShell",
            "SpawnShell",
            "SpawnShell",
            "OpenTab",
            "OpenTab",
        ]
    );
    assert!(matches!(&plan[3], Step::SpawnTerminal { terminal, command, dir }
        if terminal == "xterm" && command == "e1" && dir == "/work"));
}

#[test]
fn empty_stages_are_skipped_without_warnings() {
    let w = Workspace {
        path: "/w".to_string(),
        tabs: Vec::new(),
        commands: Commands { local: Vec::new(), external: Vec::new(), background: Vec::new() },
    };
    let env = ActivationEnv { terminal: None, shell: None, browser: None };
    let plan = w.open(&env, false);
    assert_eq!(plan.len(), 1);
    assert!(matches!(&plan[0], Step::ChangeDir { .. }));
}

#[test]
fn every_unset_launcher_warns_for_its_own_stage() {
    let w = full_record();
    let env = ActivationEnv { terminal: None, shell: None, browser: None };
    let plan = w.open(&env, false);
    let warns: Vec<ConfigWarning> = plan
        .iter()
        .filter_map(|s| match s {
            Step::Warn { warning } => Some(*warning),
            _ => None,
        })
        .collect();
    assert_eq!(
        warns,
        vec![ConfigWarning::TerminalUnset, ConfigWarning::ShellUnset, ConfigWarning::BrowserUnset]
    );
}
