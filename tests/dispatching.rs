use std::cell::RefCell;
use std::rc::Rc;

use clap_handler::context::{Context, NotFound};
use clap_handler::dispatch::{dispatch, Choice, Command, Handler, Step};

const X_KEY: u64 = 1;

#[derive(Debug, Clone, PartialEq)]
enum Val {
    Int(i32),
}

struct Logic {
    name: &'static str,
    inject: Option<Result<i32, String>>,
    reads: bool,
    fail: Option<String>,
    seen: Rc<RefCell<Vec<String>>>,
}

impl Handler<Val, String> for Logic {
    fn inject(&self, ctx: &mut Context<Val>) -> Result<(), String> {
        self.seen.borrow_mut().push(format!("{}:inject", self.name));
        match &self.inject {
            Some(Ok(x)) => {
                ctx.insert(X_KEY, Val::Int(*x));
                Ok(())
            }
            Some(Err(e)) => Err(e.clone()),
            None => Ok(()),
        }
    }

    fn handle(&self, ctx: &mut Context<Val>) -> Result<(), String> {
        self.seen.borrow_mut().push(format!("{}:handle", self.name));
        if self.reads {
            match ctx.get(X_KEY) {
                Ok(Val::Int(x)) => self.seen.borrow_mut().push(format!("{} saw {}", self.name, x)),
                Err(NotFound { key }) => return Err(format!("missing {}", key)),
            }
        }
        match &self.fail {
            Some(e) => Err(e.clone()),
            None => Ok(()),
        }
    }
}

fn logic(name: &'static str, seen: &Rc<RefCell<Vec<String>>>) -> Logic {
    Logic { name, inject: None, reads: false, fail: None, seen: seen.clone() }
}

fn leaf(handler: Logic) -> Command<Logic> {
    Command { handler, injects: false, subcommand: None }
}

fn two_level(seen: &Rc<RefCell<Vec<String>>>, inject: Result<i32, String>) -> Command<Logic> {
    let mut root = logic("root", seen);
    root.inject = Some(inject);
    let mut child = logic("child", seen);
    child.reads = true;
    Command {
        handler: root,
        injects: true,
        subcommand: Some(Choice { variants: vec![leaf(child)], active: 0 }),
    }
}

#[test]
fn child_sees_injected_value() {
    let seen = Rc::new(RefCell::new(Vec::new()));
    let tree = two_level(&seen, Ok(17));
    let mut log = Vec::new();
    let r: Result<(), String> = tree.execute(Context::new(), &mut log);
    assert_eq!(r, Ok(()));
    assert_eq!(log, vec![Step::Inject, Step::Handle, Step::Select(0), Step::Handle]);
    assert_eq!(
        *seen.borrow(),
        vec!["root:inject", "root:handle", "child:handle", "child saw 17"]
    );
}

#[test]
fn injector_failure_stops_dispatch() {
    let seen = Rc::new(RefCell::new(Vec::new()));
    let tree = two_level(&seen, Err("no config".to_string()));
    let mut log = Vec::new();
    let r: Result<(), String> = tree.execute(Context::new(), &mut log);
    assert_eq!(r, Err("no config".to_string()));
    assert_eq!(log, vec![Step::Inject]);
    assert_eq!(*seen.borrow(), vec!["root:inject"]);
}

#[test]
fn failing_variant_error_propagates() {
    let seen = Rc::new(RefCell::new(Vec::new()));
    let first = logic("first", &seen);
    let mut second = logic("second", &seen);
    second.fail = Some("bad input".to_string());
    let third = logic("third", &seen);
    let choice = Choice { variants: vec![leaf(first), leaf(second), leaf(third)], active: 1 };
    let mut log = Vec::new();
    let r: Result<(), String> = choice.execute(Context::new(), &mut log);
    assert_eq!(r, Err("bad input".to_string()));
    assert_eq!(log, vec![Step::Select(1), Step::Handle]);
    assert_eq!(*seen.borrow(), vec!["second:handle"]);
}

#[test]
fn dispatch_twice_same_result() {
    let seen = Rc::new(RefCell::new(Vec::new()));
    let tree = two_level(&seen, Ok(-3));
    let a: Result<(), String> = dispatch(&tree, Context::new());
    let b: Result<(), String> = dispatch(&tree, Context::new());
    assert_eq!(a, b);
    assert_eq!(a, Ok(()));

    let other = Rc::new(RefCell::new(Vec::new()));
    let failing = two_level(&other, Err("x".to_string()));
    let c: Result<(), String> = dispatch(&failing, Context::new());
    let d: Result<(), String> = dispatch(&failing, Context::new());
    assert_eq!(c, d);
    assert_eq!(c, Err("x".to_string()));
}

#[test]
fn missing_value_is_reported() {
    let seen = Rc::new(RefCell::new(Vec::new()));
    let mut child = logic("child", &seen);
    child.reads = true;
    let root = Command {
        handler: logic("root", &seen),
        injects: false,
        subcommand: Some(Choice { variants: vec![leaf(child)], active: 0 }),
    };
    let r: Result<(), String> = dispatch(&root, Context::new());
    assert_eq!(r, Err("missing 1".to_string()));
}

#[test]
fn seeded_context_reaches_leaf() {
    let seen = Rc::new(RefCell::new(Vec::new()));
    let mut only = logic("only", &seen);
    only.reads = true;
    let mut ctx = Context::new();
    ctx.insert(X_KEY, Val::Int(5));
    let r: Result<(), String> = dispatch(&leaf(only), ctx);
    assert_eq!(r, Ok(()));
    assert_eq!(*seen.borrow(), vec!["only:handle", "only saw 5"]);
}

#[test]
fn three_levels_in_order() {
    let seen = Rc::new(RefCell::new(Vec::new()));
    let mut grand = logic("grand", &seen);
    grand.reads = true;
    let mut middle = logic("middle", &seen);
    middle.inject = Some(Ok(9));
    let middle = Command {
        handler: middle,
        injects: true,
        subcommand: Some(Choice { variants: vec![leaf(logic("other", &seen)), leaf(grand)], active: 1 }),
    };
    let mut root = logic("root", &seen);
    root.inject = Some(Ok(1));
    let root = Command {
        handler: root,
        injects: true,
        subcommand: Some(Choice { variants: vec![middle], active: 0 }),
    };
    let mut log = Vec::new();
    let r: Result<(), String> = root.execute(Context::new(), &mut log);
    assert_eq!(r, Ok(()));
    assert_eq!(
        log,
        vec![
            Step::Inject,
            Step::Handle,
            Step::Select(0),
            Step::Inject,
            Step::Handle,
            Step::Select(1),
            Step::Handle
        ]
    );
    assert_eq!(seen.borrow().last().map(|s| s.as_str()), Some("grand saw 9"));
}

#[test]
fn resolution_of_selected_path() {
    let seen = Rc::new(RefCell::new(Vec::new()));
    let good = two_level(&seen, Ok(1));
    assert!(good.is_resolved());
    let bad = Command {
        handler: logic("root", &seen),
        injects: false,
        subcommand: Some(Choice { variants: vec![leaf(logic("a", &seen))], active: 1 }),
    };
    assert!(!bad.is_resolved());
    let empty: Choice<Logic> = Choice { variants: vec![], active: 0 };
    assert!(!empty.is_resolved());
}
