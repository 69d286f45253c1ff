use aurora::config::{combine_configs, parse_action, ActionKind, Command, ConfigError};

fn cmd(trigger: &str, action: &str) -> Command {
    Command { trigger: trigger.to_string(), action: action.to_string() }
}

#[test]
fn combine_keeps_commands_in_source_order() {
    let parts = vec![
        vec![cmd("ouvre le navigateur", "cmd:firefox"), cmd("ferme tout", "cmd:close")],
        vec![cmd("note", "texte")],
    ];
    let config = combine_configs(&parts).expect("merge");
    let triggers: Vec<&str> = config.commands.iter().map(|c| c.trigger.as_str()).collect();
    assert_eq!(triggers, vec!["ouvre le navigateur", "ferme tout", "note"]);
}

#[test]
fn duplicate_trigger_is_fatal_case_insensitively() {
    let parts = vec![
        vec![cmd("Ouvre", "cmd:a")],
        vec![cmd("ouvre", "cmd:b")],
    ];
    match combine_configs(&parts) {
        Err(ConfigError::DuplicateTrigger) => {}
        _ => panic!("expected a duplicate-trigger error"),
    }
}

#[test]
fn duplicate_within_one_source_is_fatal_too() {
    let parts = vec![vec![cmd("stop", "cmd:a"), cmd("stop", "cmd:b")]];
    match combine_configs(&parts) {
        Err(ConfigError::DuplicateTrigger) => {}
        _ => panic!("expected a duplicate-trigger error"),
    }
}

#[test]
fn empty_configuration_is_an_error() {
    match combine_configs(&Vec::new()) {
        Err(ConfigError::NoCommands) => {}
        _ => panic!("expected a no-commands error"),
    }
    match combine_configs(&vec![Vec::new(), Vec::new()]) {
        Err(ConfigError::NoCommands) => {}
        _ => panic!("expected a no-commands error"),
    }
}

#[test]
fn action_with_cmd_prefix_is_a_shell_command() {
    match parse_action("cmd:ls -la") {
        ActionKind::Shell(rest) => assert_eq!(rest, "ls -la"),
        _ => panic!("expected a shell command"),
    }
    match parse_action("cmd:") {
        ActionKind::Shell(rest) => assert_eq!(rest, ""),
        _ => panic!("expected a shell command"),
    }
}

#[test]
fn action_without_prefix_is_literal_text() {
    match parse_action("bonjour tout le monde") {
        ActionKind::Text(t) => assert_eq!(t, "bonjour tout le monde"),
        _ => panic!("expected literal text"),
    }
    match parse_action("cm") {
        ActionKind::Text(t) => assert_eq!(t, "cm"),
        _ => panic!("expected literal text"),
    }
}
