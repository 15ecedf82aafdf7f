use bson_parse::shell::{eval, exec_candidates, path_add, path_remove, ShellAction};

#[test]
fn path_add_appends_new_directories() {
    let mut path = String::new();
    path_add(&mut path, "/bin");
    assert_eq!(path, "/bin");
    path_add(&mut path, "/usr/bin");
    assert_eq!(path, "/bin:/usr/bin");
}

#[test]
fn path_add_skips_present_directories() {
    let mut path = "/bin:/usr/bin".to_string();
    path_add(&mut path, "/bin");
    assert_eq!(path, "/bin:/usr/bin");
    path_add(&mut path, "/usr/bin");
    assert_eq!(path, "/bin:/usr/bin");
}

#[test]
fn path_remove_drops_every_occurrence() {
    let mut path = "/bin:/opt:/bin:/sbin".to_string();
    path_remove(&mut path, "/bin");
    assert_eq!(path, "/opt:/sbin");
    path_remove(&mut path, "/missing");
    assert_eq!(path, "/opt:/sbin");
    path_remove(&mut path, "/opt");
    path_remove(&mut path, "/sbin");
    assert_eq!(path, "");
}

#[test]
fn candidates_follow_the_path() {
    let c = exec_candidates("ls", "/bin:/usr/bin");
    assert_eq!(c, vec!["/bin/ls".to_string(), "/usr/bin/ls".to_string()]);
    assert!(exec_candidates("/bin/ls", "/bin").is_empty());
    assert!(exec_candidates("", "/bin").is_empty());
}

#[test]
fn eval_exit_reports_exit() {
    let mut history: Vec<String> = Vec::new();
    let mut path = String::new();
    let (exit, actions) = eval("  exit  ", &mut history, &mut path);
    assert!(exit);
    assert!(actions.is_empty());
    // The line was recorded, trimmed.
    assert_eq!(history, vec!["exit".to_string()]);
}

#[test]
fn eval_blank_line_does_nothing() {
    let mut history: Vec<String> = Vec::new();
    let mut path = String::new();
    let (exit, actions) = eval("   \t ", &mut history, &mut path);
    assert!(!exit);
    assert!(actions.is_empty());
    assert!(history.is_empty());
}

#[test]
fn eval_dispatches_commands() {
    let mut history: Vec<String> = Vec::new();
    let mut path = String::new();

    let (exit, actions) = eval("pwd", &mut history, &mut path);
    assert!(!exit);
    assert!(matches!(actions[..], [ShellAction::Pwd]));

    let (_, actions) = eval("pwd here", &mut history, &mut path);
    assert!(
        matches!(&actions[..], [ShellAction::Print(m)] if m == "Error: pwd takes no arguments")
    );

    let (_, actions) = eval("cd /tmp", &mut history, &mut path);
    assert!(matches!(&actions[..], [ShellAction::Cd(d)] if d == "/tmp"));

    let (_, actions) = eval("cd", &mut history, &mut path);
    assert!(matches!(&actions[..], [ShellAction::Print(m)] if m == "Error: cd takes exactly one arg"));

    let (_, actions) = eval("grep -r needle", &mut history, &mut path);
    match &actions[..] {
        [ShellAction::Exec(cmd, args)] => {
            assert_eq!(cmd, "grep");
            assert_eq!(args, &vec!["-r".to_string(), "needle".to_string()]);
        },
        _ => panic!(),
    }
}

#[test]
fn eval_path_commands_update_the_path() {
    let mut history: Vec<String> = Vec::new();
    let mut path = String::new();

    let (_, actions) = eval("path + /bin", &mut history, &mut path);
    assert!(actions.is_empty());
    assert_eq!(path, "/bin");

    let (_, actions) = eval("path", &mut history, &mut path);
    assert!(matches!(&actions[..], [ShellAction::Print(p)] if p == "/bin"));

    let (_, actions) = eval("path - /bin", &mut history, &mut path);
    assert!(actions.is_empty());
    assert_eq!(path, "");

    let (_, actions) = eval("path wrong", &mut history, &mut path);
    assert!(matches!(&actions[..], [ShellAction::Print(m)] if m == "Error: path usage: path [+/- dir]"));
}

#[test]
fn eval_history_lists_clears_and_replays() {
    let mut history: Vec<String> = Vec::new();
    let mut path = String::new();

    eval("pwd", &mut history, &mut path);
    eval("cd /tmp", &mut history, &mut path);
    assert_eq!(history, vec!["pwd".to_string(), "cd /tmp".to_string()]);

    // Listing does not record the history command itself.
    let (exit, actions) = eval("history", &mut history, &mut path);
    assert!(!exit);
    assert!(matches!(actions[..], [ShellAction::ShowHistory]));
    assert_eq!(history.len(), 2);

    // Replaying records the replayed line again and performs it.
    let (exit, actions) = eval("history 1", &mut history, &mut path);
    assert!(!exit);
    assert!(matches!(&actions[..], [ShellAction::Cd(d)] if d == "/tmp"));
    assert_eq!(history, vec!["pwd".to_string(), "cd /tmp".to_string(), "cd /tmp".to_string()]);

    let (_, actions) = eval("history 9", &mut history, &mut path);
    assert!(matches!(&actions[..], [ShellAction::Print(m)] if m == "Error: arg out of bounds"));

    let (_, actions) = eval("history abc", &mut history, &mut path);
    assert!(
        matches!(&actions[..], [ShellAction::Print(m)] if m == "Error: history usage: history [-c]/[%d]")
    );

    let (_, actions) = eval("history -c", &mut history, &mut path);
    assert!(actions.is_empty());
    assert!(history.is_empty());
}

#[test]
fn replayed_exit_does_not_exit() {
    let mut history: Vec<String> = Vec::new();
    let mut path = String::new();
    let (exit, _) = eval("exit", &mut history, &mut path);
    assert!(exit);
    // The replay of a stored "exit" is discarded by the history command.
    let (exit, _) = eval("history 0", &mut history, &mut path);
    assert!(!exit);
    assert_eq!(history, vec!["exit".to_string(), "exit".to_string()]);
}

#[test]
fn numeric_history_arguments_parse_like_rust() {
    let mut history: Vec<String> = Vec::new();
    let mut path = String::new();
    eval("pwd", &mut history, &mut path);
    // "+0" and "00" both parse as index zero.
    let (_, actions) = eval("history +0", &mut history, &mut path);
    assert!(matches!(actions[..], [ShellAction::Pwd]));
    let (_, actions) = eval("history 00", &mut history, &mut path);
    assert!(matches!(actions[..], [ShellAction::Pwd]));
}
