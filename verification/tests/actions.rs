use omafiles::actions::{agent_prompt, compose_prompt, default_agent, open_failure, open_path, open_terminal, share, share_command, summon_agent_picker, terminal_command};

#[test]
fn the_terminal_line_matches_omarchys_own_script() {
    let line = terminal_command("/home/x/Documents");
    assert_eq!(line.program, "setsid");
    assert_eq!(line.args, vec!["uwsm-app", "--", "xdg-terminal-exec", "--dir=/home/x/Documents"]);
}

#[test]
fn share_distinguishes_files_from_folders() {
    let file = share_command("/x/a.txt", false);
    assert_eq!(file.args[0], "file");
    let folder = share_command("/x/photos", true);
    assert_eq!(folder.args[0], "folder");
    assert_eq!(folder.args[1], "/x/photos");
}

#[test]
fn the_prompt_names_what_it_is_about() {
    assert!(compose_prompt("notes.md", false).contains("\"notes.md\""));
    assert!(compose_prompt("src", true).contains("src directory"));
    assert_eq!(compose_prompt("src", true), "Look at the src directory and help me with it.");
}

#[test]
fn open_failure_prefers_stderr_then_decodes_the_codes() {
    assert_eq!(open_failure(Some(3), "  real message  "), "real message");
    assert!(open_failure(Some(2), "").contains("does not exist"));
    assert!(open_failure(Some(3), "").contains("no application"));
    assert!(open_failure(Some(4), "").contains("failed to launch"));
    assert!(open_failure(Some(7), "").contains("exit 7"));
    assert!(open_failure(None, "").contains("signal"));
}

#[test]
fn a_negative_exit_code_is_written_with_its_sign() {
    assert_eq!(open_failure(Some(-1), " "), "xdg-open failed (exit -1)");
    assert_eq!(open_failure(Some(i32::MIN), ""), format!("xdg-open failed (exit {})", i32::MIN));
}

#[test]
fn outcomes_become_sentences() {
    assert_eq!(open_path(Ok((Some(0), "noise".to_string()))), Ok(()));
    assert_eq!(open_path(Ok((Some(2), String::new()))), Err("xdg-open: the file does not exist".to_string()));
    assert_eq!(open_path(Err("No such file".to_string())), Err("could not run xdg-open: No such file".to_string()));
    assert_eq!(share(Ok((true, String::new()))), Ok(()));
    assert_eq!(share(Ok((false, "  ".to_string()))), Err("sharing failed".to_string()));
    assert_eq!(share(Ok((false, " nope \n".to_string()))), Err("nope".to_string()));
    assert_eq!(open_terminal(Err("gone".to_string())), Err("could not launch a terminal: gone".to_string()));
    assert_eq!(open_terminal(Ok(())), Ok(()));
}

#[test]
fn the_default_agent_is_the_trimmed_output_or_none() {
    assert_eq!(default_agent(Ok("  helper\n".to_string())), Ok(Some("helper".to_string())));
    assert_eq!(default_agent(Ok("\n".to_string())), Ok(None));
    assert_eq!(default_agent(Err("x".to_string())), Err("could not run omarchy-default-agent: x".to_string()));
}

#[test]
fn the_agent_lines_name_omarchys_scripts() {
    let line = agent_prompt("hello there");
    assert_eq!(line.program, "omarchy-agent-prompt");
    assert_eq!(line.args, vec!["hello there"]);
    let picker = summon_agent_picker();
    assert_eq!(picker.program, "omarchy-menu");
    assert_eq!(picker.args, vec!["summon", "setup.default.agent"]);
}
