use cdq::dispatch::{
    change_backwards, change_backwards_until, change_forward, require_arg, select_command, Command,
};
use cdq::errors::NavError;
use cdq::stack::Cache;

#[test]
fn backward_on_empty_history_emits_nothing() {
    let mut c = Cache::new();
    let r = change_backwards(&mut c);
    assert!(r.is_none());
    assert_eq!(c.encode(), Vec::<u8>::new());
}

#[test]
fn forward_pushes_and_emits_marker_line() {
    let mut c = Cache::new();
    let (entry, line) = change_forward(&mut c, b"/home/a".to_vec(), 5);
    assert_eq!(entry.id, 1);
    assert_eq!(entry.path, b"/home/a".to_vec());
    assert_eq!(line, b"[CDQ][QUERY]: Path=/home/a".to_vec());
    assert_eq!(c.peek().unwrap().path, b"/home/a".to_vec());
}

#[test]
fn backward_emits_popped_path() {
    let mut c = Cache::new();
    change_forward(&mut c, b"/home/a".to_vec(), 1);
    change_forward(&mut c, b"/home/b".to_vec(), 2);
    let (entry, line) = change_backwards(&mut c).expect("history is non-empty");
    assert_eq!(entry.path, b"/home/b".to_vec());
    assert_eq!(line, b"[CDQ][QUERY]: Path=/home/b".to_vec());
    assert_eq!(c.peek().unwrap().path, b"/home/a".to_vec());
}

#[test]
fn backward_until_emits_final_destination() {
    let mut c = Cache::new();
    change_forward(&mut c, b"/home/a".to_vec(), 1);
    change_forward(&mut c, b"/home/b".to_vec(), 2);
    change_forward(&mut c, b"/home/c".to_vec(), 3);
    let (removed, line) = change_backwards_until(&mut c, 2).expect("id 2 exists");
    assert_eq!(removed.len(), 2);
    assert_eq!(removed[0].path, b"/home/c".to_vec());
    assert_eq!(removed[1].path, b"/home/b".to_vec());
    assert_eq!(line, b"[CDQ][QUERY]: Path=/home/b".to_vec());
    assert_eq!(c.peek().unwrap().path, b"/home/a".to_vec());
}

#[test]
fn backward_until_unknown_id_mutates_nothing() {
    let mut c = Cache::new();
    change_forward(&mut c, b"/home/a".to_vec(), 1);
    let before = c.encode();
    let r = change_backwards_until(&mut c, 7);
    assert!(matches!(r, Err(NavError::NotFound)));
    assert_eq!(c.encode(), before);
}

#[test]
fn missing_argument_is_reported() {
    let r: Result<Vec<u8>, NavError> = require_arg(None);
    assert!(matches!(r, Err(NavError::MissingArgument)));
    let ok = require_arg(Some(b"pattern".to_vec()));
    assert_eq!(ok.unwrap(), b"pattern".to_vec());
}

#[test]
fn command_selection_is_mutually_exclusive() {
    assert_eq!(select_command(true, false), Command::ChangeBackwards);
    assert_eq!(select_command(true, true), Command::ChangeBackwards);
    assert_eq!(select_command(false, true), Command::ChangeBackwardsUntil);
    assert_eq!(select_command(false, false), Command::ChangeForward);
}
