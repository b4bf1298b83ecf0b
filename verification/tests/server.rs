//! End-to-end tests of the dispatcher: request tokens in, reply bytes out.

use respkv::command::{create_command_specs, execute_command, find_spec, parse_args, CmdError};
use respkv::database::{Database, Dataset, Value};

fn v(s: &str) -> Vec<u8> {
    s.as_bytes().to_vec()
}

fn toks(words: &[&str]) -> Vec<Vec<u8>> {
    words.iter().map(|w| v(w)).collect()
}

fn run(db: &mut Database, words: &[&str], now_ms: u64) -> Result<Vec<u8>, CmdError> {
    execute_command(db, &toks(words), now_ms)
}

#[test]
fn ping_replies_pong() {
    let mut db = Database::new();
    assert_eq!(run(&mut db, &["PING"], 0).unwrap(), v("+PONG\r\n"));
}

#[test]
fn ping_any_case() {
    let mut db = Database::new();
    assert_eq!(run(&mut db, &["ping"], 0).unwrap(), v("+PONG\r\n"));
    assert_eq!(run(&mut db, &["Ping"], 0).unwrap(), v("+PONG\r\n"));
    assert_eq!(run(&mut db, &["pInG"], 0).unwrap(), v("+PONG\r\n"));
}

#[test]
fn echo_replies_argument() {
    let mut db = Database::new();
    assert_eq!(run(&mut db, &["ECHO", "hello"], 0).unwrap(), v("$5\r\nhello\r\n"));
}

#[test]
fn set_then_get_returns_value() {
    let mut db = Database::new();
    assert_eq!(run(&mut db, &["SET", "foo", "bar"], 0).unwrap(), v("+OK\r\n"));
    assert_eq!(run(&mut db, &["GET", "foo"], 0).unwrap(), v("$3\r\nbar\r\n"));
}

#[test]
fn get_missing_key_is_null_bulk() {
    let mut db = Database::new();
    assert_eq!(run(&mut db, &["GET", "missing"], 0).unwrap(), v("$-1\r\n"));
}

#[test]
fn set_overwrites_and_clears_expiry() {
    let mut db = Database::new();
    run(&mut db, &["SET", "k", "old", "PX", "100"], 1000).unwrap();
    run(&mut db, &["SET", "k", "new"], 1000).unwrap();
    // far in the future: without the overwrite the key would be expired
    assert_eq!(run(&mut db, &["GET", "k"], 1_000_000).unwrap(), v("$3\r\nnew\r\n"));
}

#[test]
fn set_px_expires_at_deadline() {
    let mut db = Database::new();
    assert_eq!(run(&mut db, &["SET", "k", "v", "PX", "100"], 1000).unwrap(), v("+OK\r\n"));
    assert_eq!(run(&mut db, &["GET", "k"], 1050).unwrap(), v("$1\r\nv\r\n"));
    assert_eq!(run(&mut db, &["GET", "k"], 1099).unwrap(), v("$1\r\nv\r\n"));
    assert_eq!(run(&mut db, &["GET", "k"], 1100).unwrap(), v("$-1\r\n"));
    assert_eq!(run(&mut db, &["GET", "k"], 2000).unwrap(), v("$-1\r\n"));
    // the key is invisible, but still in storage
    let keys_reply = run(&mut db, &["KEYS", "*"], 2000).unwrap();
    assert_eq!(keys_reply, v("*1\r\n$1\r\nk\r\n"));
}

#[test]
fn set_px_lowercase_also_sets_expiry() {
    let mut db = Database::new();
    run(&mut db, &["SET", "k", "v", "px", "100"], 1000).unwrap();
    assert_eq!(run(&mut db, &["GET", "k"], 1100).unwrap(), v("$-1\r\n"));
}

#[test]
fn keys_star_lists_each_key_once() {
    let mut db = Database::new();
    run(&mut db, &["SET", "a", "1"], 0).unwrap();
    run(&mut db, &["SET", "b", "2"], 0).unwrap();
    run(&mut db, &["SET", "a", "3"], 0).unwrap();
    assert_eq!(run(&mut db, &["KEYS", "*"], 0).unwrap(), v("*2\r\n$1\r\na\r\n$1\r\nb\r\n"));
}

#[test]
fn keys_rejects_other_patterns() {
    let mut db = Database::new();
    assert_eq!(run(&mut db, &["KEYS", "a*"], 0), Err(CmdError::InvalidArgument));
}

#[test]
fn config_get_known_and_unknown() {
    let mut db = Database::new();
    db.set_config(b"dir", v("/data"));
    assert_eq!(
        run(&mut db, &["CONFIG", "GET", "dir"], 0).unwrap(),
        v("*2\r\n$3\r\ndir\r\n$5\r\n/data\r\n")
    );
    assert_eq!(
        run(&mut db, &["CONFIG", "GET", "nope"], 0).unwrap(),
        v("*2\r\n$4\r\nnope\r\n$-1\r\n")
    );
    assert_eq!(
        run(&mut db, &["config", "Get", "dir"], 0).unwrap(),
        v("*2\r\n$3\r\ndir\r\n$5\r\n/data\r\n")
    );
}

#[test]
fn dispatch_errors() {
    let mut db = Database::new();
    assert_eq!(run(&mut db, &[], 0), Err(CmdError::IncompleteCommand));
    assert_eq!(run(&mut db, &["CONFIG"], 0), Err(CmdError::IncompleteCommand));
    assert_eq!(run(&mut db, &["NOSUCH"], 0), Err(CmdError::UnknownCommand));
    assert_eq!(run(&mut db, &["CONFIG", "SET"], 0), Err(CmdError::UnknownCommand));
    assert_eq!(run(&mut db, &["SET", "k"], 0), Err(CmdError::NotEnoughArguments));
    assert_eq!(run(&mut db, &["ECHO"], 0), Err(CmdError::NotEnoughArguments));
    assert_eq!(run(&mut db, &["SET", "k", "v", "PX"], 0), Err(CmdError::MissingNamedValue));
    assert_eq!(run(&mut db, &["SET", "k", "v", "PX", "abc"], 0), Err(CmdError::InvalidArgument));
    assert_eq!(
        run(&mut db, &["SET", "k", "v", "PX", "18446744073709551615"], 1),
        Err(CmdError::InvalidArgument)
    );
}

#[test]
fn unknown_named_argument_falls_through_as_positional() {
    let mut db = Database::new();
    // the extra token is appended to the positional arguments and ignored
    assert_eq!(run(&mut db, &["SET", "k", "v", "EXTRA"], 0).unwrap(), v("+OK\r\n"));
    assert_eq!(run(&mut db, &["GET", "k"], 0).unwrap(), v("$1\r\nv\r\n"));
}

#[test]
fn keys_are_byte_exact_but_commands_fold() {
    let mut db = Database::new();
    run(&mut db, &["SET", "Key", "v1"], 0).unwrap();
    run(&mut db, &["set", "key", "v2"], 0).unwrap();
    assert_eq!(run(&mut db, &["GET", "Key"], 0).unwrap(), v("$2\r\nv1\r\n"));
    assert_eq!(run(&mut db, &["GET", "key"], 0).unwrap(), v("$2\r\nv2\r\n"));
}

#[test]
fn find_spec_descends_to_leaf() {
    let specs = create_command_specs();
    let request = toks(&["CONFIG", "GET", "dir"]);
    let (leaf, next) = find_spec(&specs, &request, 0).unwrap();
    assert_eq!(leaf.leading_argc, 1);
    assert_eq!(next, 2);
    let request2 = toks(&["SET", "k", "v"]);
    let (leaf2, next2) = find_spec(&specs, &request2, 0).unwrap();
    assert_eq!(leaf2.leading_argc, 2);
    assert_eq!(next2, 1);
}

#[test]
fn parse_args_splits_positional_and_named() {
    let named: Vec<(Vec<u8>, usize)> = vec![(v("px"), 1)];
    let request = toks(&["k", "v", "PX", "100", "extra"]);
    let parsed = parse_args(2, &named, &request, 0).unwrap();
    assert_eq!(parsed.args, vec![v("k"), v("v"), v("extra")]);
    assert_eq!(parsed.named_args, vec![(v("px"), vec![v("100")])]);
}

#[test]
fn dataset_operations() {
    let mut d = Dataset::new();
    d.set(v("a"), Value::String(v("1")));
    d.set_expiry(v("a"), 500);
    match d.get_at(b"a", 499) {
        Some(Value::String(data)) => assert_eq!(data, &v("1")),
        None => panic!("value should be visible before the expiry"),
    }
    assert!(d.get_at(b"a", 500).is_none());
    d.unset_expiry(b"a");
    match d.get_at(b"a", 500) {
        Some(Value::String(data)) => assert_eq!(data, &v("1")),
        None => panic!("value should be visible after the expiry is cleared"),
    }
    let keys = d.all_keys();
    assert_eq!(keys, vec![v("a")]);
}

#[test]
fn database_swap_and_locking_accessors() {
    let mut db = Database::new();
    {
        let ds = db.write(0);
        ds.set(v("x"), Value::String(v("y")));
    }
    {
        let ds = db.read(0);
        match ds.get_at(b"x", 0) {
            Some(Value::String(data)) => assert_eq!(data, &v("y")),
            None => panic!("stored value missing"),
        }
    }
    let mut fresh = Dataset::new();
    fresh.set(v("z"), Value::String(v("9")));
    db.swap_datasets(vec![fresh]);
    assert_eq!(run(&mut db, &["GET", "x"], 0).unwrap(), v("$-1\r\n"));
    assert_eq!(run(&mut db, &["GET", "z"], 0).unwrap(), v("$1\r\n9\r\n"));
}

#[test]
fn dataset_get_consults_the_wall_clock() {
    let mut d = Dataset::new();
    d.set(v("k"), Value::String(v("v")));
    d.set_expiry(v("k"), u64::MAX);
    assert!(d.get(b"k").is_some());
    // one millisecond after the epoch lies far in the past
    d.set_expiry(v("k"), 1);
    assert!(d.get(b"k").is_none());
    d.unset_expiry(b"k");
    assert!(d.get(b"k").is_some());
}
