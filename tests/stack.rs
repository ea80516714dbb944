use std::cell::Cell;
use std::rc::Rc;

use austenite::stack::settle;
use austenite::{Middleware, Stack};

/// Handlers used by the tests. The kind depends on the variant only.
enum Fake {
    /// Always fails with the error it holds.
    A(&'static str),
    /// Passes the message through unchanged.
    B,
    /// Appends its tag to the message.
    Tag(&'static str),
    /// Counts how often it was called and passes the message through.
    Counter(Rc<Cell<u32>>),
}

impl Middleware for Fake {
    fn kind(&self) -> String {
        match self {
            Fake::A(_) => "A".to_string(),
            Fake::B => "B".to_string(),
            Fake::Tag(t) => format!("Tag:{}", t),
            Fake::Counter(_) => "Counter".to_string(),
        }
    }

    fn handle(&self, message: &str) -> Result<String, String> {
        match self {
            Fake::A(e) => Err(e.to_string()),
            Fake::B => Ok(message.to_string()),
            Fake::Tag(t) => Ok(format!("{}{}", message, t)),
            Fake::Counter(c) => {
                c.set(c.get() + 1);
                Ok(message.to_string())
            }
        }
    }
}

fn fail_a() -> Fake {
    Fake::A("I always fail!")
}

#[test]
fn stack_initiates_empty() {
    let stack: Stack<Fake> = Stack::new(None);
    assert_eq!(stack.len(), 0);
}

#[test]
fn stack_initializes_with_middlewares_list() {
    let stack = Stack::new(Some(vec![fail_a(), Fake::B]));
    assert!(stack.len() > 0);
}

#[test]
fn stack_checks_if_middleware_exists() {
    let mut stack = Stack::new(None);
    stack.attach(fail_a());
    assert_eq!(stack.len(), 1);
}

#[test]
fn stack_disallow_adding_same_middleware() {
    let mut stack = Stack::new(None);
    let middleware_a = fail_a();
    let middleware_b = fail_a();
    stack.attach(middleware_a).attach(middleware_b);
    assert_eq!(stack.len(), 1);
}

#[test]
fn stack_dettaches_existing_middleware() {
    let middleware = fail_a();
    let mut stack = Stack::new(Some(vec![fail_a()]));
    stack.dettach(middleware);
    assert_eq!(stack.len(), 0);
}

#[test]
fn stack_results_ok_if_middlewares_succeeds() {
    let stack = Stack::new(Some(vec![Fake::B]));
    let message = "A message";
    match stack.handle(message) {
        Ok(msg) => {
            assert_eq!(msg, message);
        }
        Err(_) => (),
    }
}

#[test]
fn stack_results_err_if_at_least_one_middleware_fails() {
    let stack = Stack::new(Some(vec![fail_a(), Fake::B]));
    match stack.handle("A message") {
        Ok(_) => {
            assert!(false);
        }
        Err(_) => {
            assert!(true);
        }
    }
}

#[test]
fn failing_handler_attached_first_gives_its_error() {
    let mut stack = Stack::new(None);
    stack.attach(Fake::A("E1")).attach(Fake::B);
    assert_eq!(stack.handle("msg"), Err("E1".to_string()));
}

#[test]
fn passthrough_alone_returns_message() {
    let mut stack = Stack::new(None);
    stack.attach(Fake::B);
    assert_eq!(stack.handle("msg"), Ok("msg".to_string()));
}

#[test]
fn attach_twice_then_detach_twice() {
    let mut stack = Stack::new(None);
    stack.attach(fail_a()).attach(fail_a());
    assert_eq!(stack.len(), 1);
    stack.dettach(fail_a());
    assert_eq!(stack.len(), 0);
    stack.dettach(fail_a());
    assert_eq!(stack.len(), 0);
}

#[test]
fn same_kind_with_other_state_is_not_attached() {
    let mut stack = Stack::new(None);
    stack.attach(Fake::A("first")).attach(Fake::A("second"));
    assert_eq!(stack.len(), 1);
    assert_eq!(stack.handle("m"), Err("first".to_string()));
}

#[test]
fn attach_is_idempotent_on_a_seeded_stack() {
    let mut once = Stack::new(Some(vec![Fake::B, Fake::Tag("x")]));
    let mut twice = Stack::new(Some(vec![Fake::B, Fake::Tag("x")]));
    once.attach(Fake::Tag("y"));
    twice.attach(Fake::Tag("y")).attach(Fake::Tag("y"));
    assert_eq!(once.len(), 3);
    assert_eq!(twice.len(), once.len());
}

#[test]
fn detach_restores_length_and_second_detach_is_noop() {
    let mut stack = Stack::new(Some(vec![Fake::B, Fake::Tag("x")]));
    stack.attach(fail_a());
    assert_eq!(stack.len(), 3);
    stack.dettach(fail_a());
    assert_eq!(stack.len(), 2);
    stack.dettach(fail_a());
    assert_eq!(stack.len(), 2);
    assert_eq!(stack.handle("m"), Ok("mx".to_string()));
}

#[test]
fn last_attached_is_visited_first() {
    let mut stack = Stack::new(None);
    stack.attach(Fake::Tag("a")).attach(Fake::Tag("b")).attach(Fake::Tag("c"));
    assert_eq!(stack.handle(">"), Ok(">cba".to_string()));
}

#[test]
fn handlers_after_a_failure_are_not_called() {
    let calls = Rc::new(Cell::new(0));
    let stack = Stack::new(Some(vec![
        Fake::Counter(calls.clone()),
        Fake::A("stop"),
        Fake::Tag("t"),
    ]));
    assert_eq!(stack.handle("m"), Err("stop".to_string()));
    assert_eq!(calls.get(), 0);
    // A second traversal gives the same result: the stack keeps no state.
    assert_eq!(stack.handle("m"), Err("stop".to_string()));
    assert_eq!(calls.get(), 0);
}

#[test]
fn handlers_before_a_failure_are_called_once() {
    let calls = Rc::new(Cell::new(0));
    let stack = Stack::new(Some(vec![Fake::A("stop"), Fake::Counter(calls.clone())]));
    assert_eq!(stack.handle("m"), Err("stop".to_string()));
    assert_eq!(calls.get(), 1);
}

#[test]
fn empty_stack_returns_message_unchanged() {
    let stack: Stack<Fake> = Stack::new(None);
    assert_eq!(stack.handle("m"), Ok("m".to_string()));
    assert_eq!(stack.handle(""), Ok("".to_string()));
}

#[test]
fn empty_error_is_still_an_error() {
    let stack = Stack::new(Some(vec![Fake::A("")]));
    assert_eq!(stack.handle("m"), Err("".to_string()));
}

#[test]
fn seed_keeps_repeated_kinds() {
    let stack = Stack::new(Some(vec![Fake::B, Fake::B]));
    assert_eq!(stack.len(), 2);
}

#[test]
fn find_and_position_report_first_index() {
    let stack = Stack::new(Some(vec![Fake::B, Fake::Tag("x"), Fake::B]));
    assert_eq!(stack.find(&Fake::B), Some(0));
    assert_eq!(stack.find(&Fake::Tag("x")), Some(1));
    assert_eq!(stack.find(&fail_a()), None);
    assert_eq!(stack.position(&"Tag:x".to_string()), Some(1));
    assert_eq!(stack.position(&"missing".to_string()), None);
}

#[test]
fn detach_removes_first_of_repeated_seed() {
    let mut stack = Stack::new(Some(vec![Fake::Tag("x"), Fake::B, Fake::Tag("x")]));
    stack.dettach_kind(&"Tag:x".to_string());
    assert_eq!(stack.len(), 2);
    assert_eq!(stack.position(&"Tag:x".to_string()), Some(1));
}

#[test]
fn attach_as_uses_given_kind() {
    let mut stack = Stack::new(None);
    stack.attach_as("k".to_string(), Fake::Tag("1"));
    stack.attach_as("k".to_string(), Fake::Tag("2"));
    stack.attach_as("j".to_string(), Fake::Tag("3"));
    assert_eq!(stack.len(), 2);
    assert_eq!(stack.handle(""), Ok("31".to_string()));
}

#[test]
fn settle_without_answers_gives_message() {
    assert_eq!(settle("m", &vec![]), Ok("m".to_string()));
}

#[test]
fn settle_on_successes_gives_last_message() {
    let answers = vec![Ok("a".to_string()), Ok("b".to_string())];
    assert_eq!(settle("m", &answers), Ok("b".to_string()));
}

#[test]
fn settle_stops_at_first_failure() {
    let answers = vec![
        Ok("a".to_string()),
        Err("e1".to_string()),
        Err("e2".to_string()),
        Ok("c".to_string()),
    ];
    assert_eq!(settle("m", &answers), Err("e1".to_string()));
}
