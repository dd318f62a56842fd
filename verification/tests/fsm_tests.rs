use statboard::input_fsm::{Command, InputFSM, State};
use statboard::LINE_CAPACITY;

const BS: char = '\u{8}';

fn feed_all(fsm: &mut InputFSM, s: &str) -> Option<Command> {
    let mut last = None;
    for c in s.chars() {
        last = fsm.feed_char(c);
    }
    last
}

#[test]
fn add_line_completes() {
    let mut fsm = InputFSM::new();
    let cmd = feed_all(&mut fsm, "add x 1 2\r");
    assert_eq!(cmd, Some(Command::Add(String::from("x"), 1, 2)));
    assert_eq!(fsm.state, State::Q0);
    assert_eq!(fsm.buffer.len(), 0);
    assert_eq!(fsm.state_stack.len(), 0);
}

#[test]
fn add_line_multiword_name() {
    let mut fsm = InputFSM::new();
    let cmd = feed_all(&mut fsm, "add Jan van Dam 10 20\r");
    assert_eq!(cmd, Some(Command::Add(String::from("Jan van Dam"), 10, 20)));
}

#[test]
fn del_line_completes() {
    let mut fsm = InputFSM::new();
    let cmd = feed_all(&mut fsm, "del x\r");
    assert_eq!(cmd, Some(Command::Delete(String::from("x"))));
    assert_eq!(fsm.state, State::Q0);
}

#[test]
fn del_line_multiword_name() {
    let mut fsm = InputFSM::new();
    let cmd = feed_all(&mut fsm, "del ab cd\r");
    assert_eq!(cmd, Some(Command::Delete(String::from("ab cd"))));
}

#[test]
fn unknown_keyword_stays_in_start() {
    let mut fsm = InputFSM::new();
    let cmd = feed_all(&mut fsm, "foo 1\r");
    assert_eq!(cmd, None);
    // letters and the space were buffered, the digit and Enter were not
    assert_eq!(fsm.buffer, vec!['f', 'o', 'o', ' ']);
    assert_eq!(fsm.state, State::Q0);
}

#[test]
fn rejected_character_changes_nothing() {
    let mut fsm = InputFSM::new();
    feed_all(&mut fsm, "add x");
    let state = fsm.state;
    let buffer = fsm.buffer.clone();
    let stack = fsm.state_stack.clone();
    let cmd = fsm.feed_char('5');
    assert_eq!(cmd, None);
    assert_eq!(fsm.state, state);
    assert_eq!(fsm.buffer, buffer);
    assert_eq!(fsm.state_stack, stack);
}

#[test]
fn backspace_rolls_back_to_initial() {
    let mut fsm = InputFSM::new();
    let typed = "add ab 1";
    feed_all(&mut fsm, typed);
    assert_eq!(fsm.buffer.len(), typed.len());
    for _ in 0..typed.len() {
        assert_eq!(fsm.feed_char(BS), None);
    }
    assert_eq!(fsm.state, State::Q0);
    assert_eq!(fsm.buffer.len(), 0);
    assert_eq!(fsm.state_stack.len(), 0);
}

#[test]
fn backspace_on_empty_session_is_noop() {
    let mut fsm = InputFSM::new();
    assert_eq!(fsm.feed_char(BS), None);
    assert_eq!(fsm.state, State::Q0);
    assert_eq!(fsm.buffer.len(), 0);
}

#[test]
fn backspace_then_retype_restores_state() {
    let mut fsm = InputFSM::new();
    feed_all(&mut fsm, "add x 1");
    fsm.feed_char(BS);
    fsm.feed_char('7');
    let cmd = feed_all(&mut fsm, " 2\r");
    assert_eq!(cmd, Some(Command::Add(String::from("x"), 7, 2)));
}

#[test]
fn capacity_drops_printables_but_takes_backspace() {
    let mut fsm = InputFSM::new();
    let mut fsm2 = InputFSM::new();
    // fill the line well past the capacity with letters in the Start state
    for _ in 0..(LINE_CAPACITY + 1) {
        fsm.feed_char('a');
        fsm2.feed_char('a');
    }
    assert_eq!(fsm.buffer.len(), LINE_CAPACITY + 1);
    let state = fsm.state;
    assert_eq!(fsm.feed_char('b'), None);
    assert_eq!(fsm.buffer.len(), LINE_CAPACITY + 1);
    assert_eq!(fsm.state, state);
    // backspace still shortens the line
    assert_eq!(fsm2.feed_char(BS), None);
    assert_eq!(fsm2.buffer.len(), LINE_CAPACITY);
}

#[test]
fn overflowing_number_discards_line() {
    let mut fsm = InputFSM::new();
    let cmd = feed_all(&mut fsm, "add x 4294967296 1\r");
    assert_eq!(cmd, None);
    // the session still resets
    assert_eq!(fsm.state, State::Q0);
    assert_eq!(fsm.buffer.len(), 0);
}

#[test]
fn largest_number_is_kept() {
    let mut fsm = InputFSM::new();
    let cmd = feed_all(&mut fsm, "add x 4294967295 0\r");
    assert_eq!(cmd, Some(Command::Add(String::from("x"), u32::MAX, 0)));
}

#[test]
fn enter_outside_terminal_state_is_ignored() {
    let mut fsm = InputFSM::new();
    feed_all(&mut fsm, "add x ");
    let buffer = fsm.buffer.clone();
    assert_eq!(fsm.feed_char('\r'), None);
    assert_eq!(fsm.buffer, buffer);
}

#[test]
fn add_command_reparses_tokens() {
    let line: Vec<char> = "add ab cd 3 4".chars().collect();
    let cmd = InputFSM::add_command(&line);
    assert_eq!(cmd, Some(Command::Add(String::from("ab cd"), 3, 4)));
    let bad: Vec<char> = "add only".chars().collect();
    assert_eq!(InputFSM::add_command(&bad), None);
}

#[test]
fn del_command_reparses_tokens() {
    let line: Vec<char> = "del ab cd".chars().collect();
    assert_eq!(
        InputFSM::del_command(&line),
        Some(Command::Delete(String::from("ab cd")))
    );
    let bad: Vec<char> = "add x".chars().collect();
    assert_eq!(InputFSM::del_command(&bad), None);
}

#[test]
fn hints_follow_the_state() {
    let mut fsm = InputFSM::new();
    assert_eq!(fsm.hint(), "");
    feed_all(&mut fsm, "add ");
    assert_eq!(fsm.hint(), "name goals assists");
    feed_all(&mut fsm, "x");
    assert_eq!(fsm.hint(), " goals assists");
    feed_all(&mut fsm, " ");
    assert_eq!(fsm.hint(), "goals assists");
    feed_all(&mut fsm, "1");
    assert_eq!(fsm.hint(), " assists");
    feed_all(&mut fsm, " ");
    assert_eq!(fsm.hint(), "assists");
    let mut del = InputFSM::new();
    feed_all(&mut del, "del ");
    assert_eq!(del.hint(), "name");
}
