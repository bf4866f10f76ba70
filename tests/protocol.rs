use git_remote_base::protocol::{
    handle_command, parse_command, BaseCommandHandler, Command, OptionSettings, ProtocolError,
    Reference, Request, SetOptionResult,
};
use std::cell::RefCell;

#[derive(Default)]
struct Recorder {
    calls: RefCell<Vec<String>>,
    options: Vec<(String, String)>,
}

impl Command for Recorder {
    fn set_option(&mut self, name: &str, value: &str) -> SetOptionResult {
        self.options.push((name.to_string(), value.to_string()));
        if name == "progress" {
            SetOptionResult::Success
        } else if name == "depth" {
            SetOptionResult::Error { message: "bad depth".to_string() }
        } else {
            SetOptionResult::Unsupported
        }
    }

    fn list_references(&self) -> Vec<Reference> {
        vec![Reference { hash: "5c3d".to_string(), name: "refs/heads/master".to_string() }]
    }

    fn fetch_object(&self, hash: &str, name: &str) {
        self.calls.borrow_mut().push(format!("fetch {} {}", hash, name));
    }

    fn push(&self, source: &str, destination: &str, force_update: bool) {
        self.calls.borrow_mut().push(format!("push {} {} {}", source, destination, force_update));
    }

    fn finalisation(&self, remote_name: String) {
        self.calls.borrow_mut().push(format!("finalise {}", remote_name));
    }
}

#[test]
fn list_without_references_is_one_blank_line() {
    let mut handler = BaseCommandHandler::new(Vec::new());
    assert_eq!(handle_command("list", &mut handler).unwrap(), vec![String::new()]);
}

#[test]
fn option_progress_is_ok() {
    let mut handler = BaseCommandHandler::new(Vec::new());
    assert_eq!(handle_command("option progress true", &mut handler).unwrap(), vec!["ok".to_string()]);
    assert_eq!(handler.options.get("progress"), Some("true".to_string()));
}

#[test]
fn unknown_command_writes_nothing_and_the_loop_goes_on() {
    let mut handler = BaseCommandHandler::new(Vec::new());
    assert!(handle_command("bogus", &mut handler).unwrap().is_empty());
    assert!(matches!(parse_command("bogus"), Ok(Request::Unknown { command }) if command == "bogus"));
    assert_eq!(handle_command("list", &mut handler).unwrap(), vec![String::new()]);
}

#[test]
fn blank_line_ends_a_batch() {
    let mut handler = BaseCommandHandler::new(Vec::new());
    assert_eq!(handle_command("", &mut handler).unwrap(), vec![String::new()]);
}

#[test]
fn capabilities_are_announced() {
    let mut handler = Recorder::default();
    assert_eq!(
        handle_command("capabilities", &mut handler).unwrap(),
        vec!["fetch", "get", "option", "push", "check-connectivity", "object-format", ""]
    );
}

#[test]
fn list_reports_hash_and_name() {
    let mut handler = Recorder::default();
    assert_eq!(
        handle_command("list", &mut handler).unwrap(),
        vec!["5c3d refs/heads/master".to_string(), String::new()]
    );
    let reference = Reference {
        hash: "5c3d2a42d88f8e13a1f50be0c46357b8f7760860".to_string(),
        name: "refs/heads/master".to_string(),
    };
    let mut base = BaseCommandHandler::new(vec![reference]);
    assert_eq!(
        handle_command("list", &mut base).unwrap(),
        vec!["5c3d2a42d88f8e13a1f50be0c46357b8f7760860 refs/heads/master".to_string(), String::new()]
    );
}

#[test]
fn option_answers() {
    let mut handler = Recorder::default();
    assert_eq!(handle_command("option progress true", &mut handler).unwrap(), vec!["ok"]);
    assert_eq!(handle_command("option verbosity 1", &mut handler).unwrap(), vec!["unsupported"]);
    assert_eq!(handle_command("option depth x", &mut handler).unwrap(), vec!["error bad depth"]);
    assert_eq!(handle_command("option object-format", &mut handler).unwrap(), vec!["unsupported"]);
    assert_eq!(handler.options.last().unwrap(), &("object-format".to_string(), "true".to_string()));
}

#[test]
fn fetch_and_push_reach_the_handler() {
    let mut handler = Recorder::default();
    assert!(handle_command("fetch 69c3 refs/heads/main", &mut handler).unwrap().is_empty());
    assert!(handle_command("push refs/heads/main:refs/heads/main", &mut handler).unwrap().is_empty());
    assert!(handle_command("push +refs/heads/a:refs/heads/b", &mut handler).unwrap().is_empty());
    assert_eq!(
        handler.calls.borrow().clone(),
        vec![
            "fetch 69c3 refs/heads/main".to_string(),
            "push refs/heads/main refs/heads/main false".to_string(),
            "push refs/heads/a refs/heads/b true".to_string(),
        ]
    );
}

#[test]
fn push_spec_splits_at_the_first_colon() {
    match parse_command("push +a:b:c").unwrap() {
        Request::Push { source, destination, force } => {
            assert_eq!(source, "a");
            assert_eq!(destination, "b:c");
            assert!(force);
        }
        _ => panic!("expected a push"),
    }
}

#[test]
fn missing_arguments_are_errors() {
    assert_eq!(parse_command("option").err(), Some(ProtocolError::OptionWithoutName));
    assert_eq!(parse_command("option progress").err(), Some(ProtocolError::OptionWithoutValue));
    assert_eq!(parse_command("fetch").err(), Some(ProtocolError::FetchWithoutHash));
    assert_eq!(parse_command("fetch 69c3").err(), Some(ProtocolError::FetchWithoutName));
    assert_eq!(parse_command("push").err(), Some(ProtocolError::PushWithoutSpec));
    assert_eq!(parse_command("push refs/heads/main").err(), Some(ProtocolError::PushWithoutSeparator));
}

#[test]
fn words_are_separated_by_single_spaces() {
    match parse_command("fetch  abc name").unwrap() {
        Request::Fetch { hash, name } => {
            assert_eq!(hash, "");
            assert_eq!(name, "abc");
        }
        _ => panic!("expected a fetch"),
    }
    assert!(matches!(parse_command(" list"), Ok(Request::Blank)));
}

#[test]
fn later_settings_win() {
    let mut settings = OptionSettings::new();
    assert_eq!(settings.get("cloning"), None);
    settings.set("cloning", "false");
    settings.set("progress", "true");
    settings.set("cloning", "true");
    assert_eq!(settings.get("cloning"), Some("true".to_string()));
    assert_eq!(settings.get("progress"), Some("true".to_string()));
}

#[test]
fn default_stub_lists_master() {
    let mut handler = BaseCommandHandler::default();
    assert_eq!(
        handle_command("list", &mut handler).unwrap(),
        vec!["5c3d2a42d88f8e13a1f50be0c46357b8f7760860 refs/heads/master".to_string(), String::new()]
    );
}
