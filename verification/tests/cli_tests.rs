#![allow(non_snake_case)]

use std::cell::Cell;
use std::cell::RefCell;

use cli_registry::Handler;
use cli_registry::UnknownCommandError;
use cli_registry::CLI;

/// A handler that prints its arguments, tagged to tell instances apart.
#[derive(Clone, Copy)]
struct Tag {
    n: u32,
}

impl Handler for Tag {
    fn call(&self, args: Vec<String>) {
        println!("Test command {} up and running. Arguments: ", self.n);
        for arg in args {
            println!("{arg}");
        }
    }
}

/// A handler that counts how often it is invoked.
#[derive(Clone, Copy)]
struct Counting<'a> {
    hits: &'a Cell<u32>,
}

impl<'a> Handler for Counting<'a> {
    fn call(&self, _args: Vec<String>) {
        self.hits.set(self.hits.get() + 1);
    }
}

/// A handler that records every argument list it is invoked with.
#[derive(Clone, Copy)]
struct Recording<'a> {
    calls: &'a RefCell<Vec<Vec<String>>>,
}

impl<'a> Handler for Recording<'a> {
    fn call(&self, args: Vec<String>) {
        self.calls.borrow_mut().push(args);
    }
}

#[test]
fn command_testing() {
    let mut cli: CLI<Tag> = CLI::default();
    cli.addCommand("test1".to_string(), Tag { n: 1 });
    cli.addCommands(
        vec!["test2".to_string(), "testtwo".to_string()],
        Tag { n: 2 },
    );

    let args: Vec<String> = vec!["--test".to_string(), "IsTest=true".to_string()];
    assert_eq!(cli.executeCommand("test1".to_string(), args.clone()), Ok(()));
    let missing = cli
        .executeCommand("unreal".to_string(), args.clone())
        .unwrap_err();
    assert_eq!(missing.name, "unreal".to_string());
    assert_eq!(missing.message(), "No such function \"unreal\"".to_string());
    assert_eq!(cli.executeCommand("test2".to_string(), args.clone()), Ok(()));
    assert_eq!(
        cli.executeCommand("testtwo".to_string(), args.clone()),
        Ok(())
    );

    let validCommands: Vec<String> = vec!["test1".to_string(), "test2".to_string()];
    let invalidCommands: Vec<String> = vec!["test500".to_string(), "joe biden".to_string()];
    assert_eq!(cli.executeCommands(validCommands, args.clone()), Ok(()));
    assert!(cli.executeCommands(invalidCommands, args.clone()).is_err());
}

#[test]
fn merge_testing() {
    let mut cli1: CLI<Tag> = CLI::default();
    cli1.addCommand("test1".to_string(), Tag { n: 1 });
    cli1.addCommand("test2".to_string(), Tag { n: 2 });
    let mut cli2: CLI<Tag> = CLI::default();
    cli2.addCommand("test2".to_string(), Tag { n: 2 });

    cli1.merge(cli2, true);

    assert!(cli1.hasCommand("test2") == true);
    assert!(cli1.hasCommand("test2_bis") == true);
}

#[test]
fn operator_testing() {
    let mut cli1: CLI<Tag> = CLI::default();
    cli1.addCommand("test1".to_string(), Tag { n: 1 });
    cli1.addCommand("test2".to_string(), Tag { n: 2 });
    let mut cli2: CLI<Tag> = CLI::default();
    cli2.addCommand("test2".to_string(), Tag { n: 2 });

    cli1 = cli1.combine(&cli2);

    assert!(cli1.hasCommand("test2") == true);
    assert!(cli1.hasCommand("test2") == true);
    assert!(cli1.hasCommand("test2_bis") == false);
}

#[test]
fn register_then_has() {
    let mut cli: CLI<Tag> = CLI::default();
    assert!(!cli.hasCommand("greet"));
    cli.addCommand("greet".to_string(), Tag { n: 1 });
    assert!(cli.hasCommand("greet"));
}

#[test]
fn register_idempotent_repeat() {
    let hits = Cell::new(0);
    let h = Counting { hits: &hits };

    let mut once: CLI<Counting> = CLI::default();
    once.addCommand("n".to_string(), h);
    let mut twice: CLI<Counting> = CLI::default();
    twice.addCommand("n".to_string(), h);
    twice.addCommand("n".to_string(), h);

    assert_eq!(once.hasCommand("n"), twice.hasCommand("n"));
    assert_eq!(once.executeCommand("n".to_string(), Vec::new()), Ok(()));
    assert_eq!(twice.executeCommand("n".to_string(), Vec::new()), Ok(()));
    assert_eq!(hits.get(), 2);
}

#[test]
fn combine_right_bias() {
    let hits_x = Cell::new(0);
    let hits_ya = Cell::new(0);
    let hits_yb = Cell::new(0);
    let hits_z = Cell::new(0);

    let mut a: CLI<Counting> = CLI::default();
    a.addCommand("x".to_string(), Counting { hits: &hits_x });
    a.addCommand("y".to_string(), Counting { hits: &hits_ya });
    let mut b: CLI<Counting> = CLI::default();
    b.addCommand("y".to_string(), Counting { hits: &hits_yb });
    b.addCommand("z".to_string(), Counting { hits: &hits_z });

    let c = a.combine(&b);
    assert!(c.hasCommand("x"));
    assert!(c.hasCommand("y"));
    assert!(c.hasCommand("z"));

    // The name in both registries got b's handler (right-bias).
    assert_eq!(c.executeCommand("y".to_string(), Vec::new()), Ok(()));
    assert_eq!(hits_ya.get(), 0);
    assert_eq!(hits_yb.get(), 1);

    // Neither input was mutated: a still dispatches y to its own handler.
    assert_eq!(a.executeCommand("y".to_string(), Vec::new()), Ok(()));
    assert_eq!(hits_ya.get(), 1);
    assert_eq!(hits_yb.get(), 1);
    assert!(!a.hasCommand("z"));
    assert!(!b.hasCommand("x"));
}

#[test]
fn merge_suffix_keeps_both() {
    let hits_old = Cell::new(0);
    let hits_new = Cell::new(0);
    let hits_m = Cell::new(0);

    let mut cli: CLI<Counting> = CLI::default();
    cli.addCommand("n".to_string(), Counting { hits: &hits_old });
    let mut other: CLI<Counting> = CLI::default();
    other.addCommand("n".to_string(), Counting { hits: &hits_new });
    other.addCommand("m".to_string(), Counting { hits: &hits_m });

    cli.merge(other, true);

    // The name unique to `other` came over.
    assert!(cli.hasCommand("m"));
    assert_eq!(cli.executeCommand("m".to_string(), Vec::new()), Ok(()));
    assert_eq!(hits_m.get(), 1);

    // The colliding name kept the original handler ...
    assert_eq!(cli.executeCommand("n".to_string(), Vec::new()), Ok(()));
    assert_eq!(hits_old.get(), 1);
    assert_eq!(hits_new.get(), 0);

    // ... and the incoming handler sits under the suffixed name.
    assert_eq!(cli.executeCommand("n_bis".to_string(), Vec::new()), Ok(()));
    assert_eq!(hits_new.get(), 1);
}

#[test]
fn merge_keep_discards_incoming() {
    let hits_old = Cell::new(0);
    let hits_new = Cell::new(0);

    let mut cli: CLI<Counting> = CLI::default();
    cli.addCommand("n".to_string(), Counting { hits: &hits_old });
    let mut other: CLI<Counting> = CLI::default();
    other.addCommand("n".to_string(), Counting { hits: &hits_new });

    cli.merge(other, false);

    assert!(cli.hasCommand("n"));
    assert!(!cli.hasCommand("n_bis"));
    assert_eq!(cli.executeCommand("n".to_string(), Vec::new()), Ok(()));
    assert_eq!(hits_old.get(), 1);
    assert_eq!(hits_new.get(), 0);
}

#[test]
fn merge_suffix_overwrites_taken_suffix_name() {
    let hits_old = Cell::new(0);
    let hits_taken = Cell::new(0);
    let hits_new = Cell::new(0);

    let mut cli: CLI<Counting> = CLI::default();
    cli.addCommand("n".to_string(), Counting { hits: &hits_old });
    cli.addCommand("n_bis".to_string(), Counting { hits: &hits_taken });
    let mut other: CLI<Counting> = CLI::default();
    other.addCommand("n".to_string(), Counting { hits: &hits_new });

    cli.merge(other, true);

    // Last write wins on the already-taken suffixed name.
    assert_eq!(cli.executeCommand("n_bis".to_string(), Vec::new()), Ok(()));
    assert_eq!(hits_taken.get(), 0);
    assert_eq!(hits_new.get(), 1);
    assert_eq!(cli.executeCommand("n".to_string(), Vec::new()), Ok(()));
    assert_eq!(hits_old.get(), 1);
}

#[test]
fn execute_unknown_reports_name() {
    let cli: CLI<Tag> = CLI::default();
    let args: Vec<String> = vec!["anything".to_string()];
    let err = cli
        .executeCommand("missing".to_string(), args)
        .unwrap_err();
    assert_eq!(
        err,
        UnknownCommandError {
            name: "missing".to_string()
        }
    );
    assert_eq!(err.message(), "No such function \"missing\"".to_string());
}

#[test]
fn execute_sequence_stops_at_first_failure() {
    let hits_a = Cell::new(0);
    let hits_b = Cell::new(0);

    let mut cli: CLI<Counting> = CLI::default();
    cli.addCommand("a".to_string(), Counting { hits: &hits_a });
    cli.addCommand("b".to_string(), Counting { hits: &hits_b });

    let names: Vec<String> = vec!["a".to_string(), "missing".to_string(), "b".to_string()];
    let err = cli.executeCommands(names, Vec::new()).unwrap_err();
    assert_eq!(err.name, "missing".to_string());
    assert_eq!(hits_a.get(), 1);
    assert_eq!(hits_b.get(), 0);
}

#[test]
fn greet_handler_called_once_with_args() {
    let calls = RefCell::new(Vec::new());

    let mut cli: CLI<Recording> = CLI::default();
    cli.addCommand("greet".to_string(), Recording { calls: &calls });

    let result = cli.executeCommand("greet".to_string(), vec!["world".to_string()]);
    assert_eq!(result, Ok(()));
    assert_eq!(*calls.borrow(), vec![vec!["world".to_string()]]);
}
