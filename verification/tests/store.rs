use kvorm::codec::{KeyCodec, ValueCodec};
use kvorm::command::Command;
use kvorm::error::Error;
use kvorm::key::EncodedKey;
use kvorm::store::{ReadOptions, Store, StoreIter};

fn s(x: &str) -> String {
    String::from(x)
}

fn sample() -> Command {
    Command {
        executable: 1,
        args: vec![s("arg1"), s("arg2"), s("arg3")],
        current_dir: Some(s("\\dir")),
    }
}

fn drain(mut it: StoreIter<Command>) -> Vec<(Vec<u8>, Vec<u8>)> {
    let mut out = Vec::new();
    while let Some((k, v)) = it.next() {
        out.push((k.as_slice().to_vec(), v));
    }
    out
}

#[test]
fn put_then_get_returns_record() {
    let mut store: Store<Command> = Store::new();
    let cmd = sample();
    store.put(&cmd).unwrap();
    let key = cmd.key().unwrap();
    assert_eq!(store.get(&key).unwrap(), Some(cmd));
}

#[test]
fn get_absent_returns_none() {
    let store: Store<Command> = Store::new();
    let key = sample().key().unwrap();
    assert_eq!(store.get(&key).unwrap(), None);
}

#[test]
fn delete_then_get_returns_none() {
    let mut store: Store<Command> = Store::new();
    let cmd = sample();
    store.put(&cmd).unwrap();
    let key = cmd.key().unwrap();
    store.delete(false, &key).unwrap();
    assert_eq!(store.get(&key).unwrap(), None);
}

#[test]
fn delete_absent_key_succeeds() {
    let mut store: Store<Command> = Store::new();
    let key = sample().key().unwrap();
    assert_eq!(store.delete(false, &key), Ok(()));
    assert_eq!(store.delete(true, &key), Ok(()));
}

#[test]
fn iteration_is_in_ascending_key_order() {
    let mut store: Store<Command> = Store::new();
    let later = Command { executable: 2, args: vec![s("b")], current_dir: None };
    let earlier = Command { executable: 1, args: vec![s("a")], current_dir: None };
    // inserted in descending order on purpose
    store.put(&later).unwrap();
    store.put(&earlier).unwrap();
    let entries = drain(store.iter(ReadOptions::new()).unwrap());
    assert_eq!(entries.len(), 2);
    let k1 = earlier.key().unwrap();
    let k2 = later.key().unwrap();
    assert!(k1.as_slice() < k2.as_slice());
    assert_eq!(&entries[0].0[..], k1.as_slice());
    assert_eq!(&entries[1].0[..], k2.as_slice());
}

#[test]
fn put_twice_leaves_same_state_as_put_once() {
    let cmd = sample();
    let mut store: Store<Command> = Store::new();
    store.put(&cmd).unwrap();
    let once = drain(store.iter(ReadOptions::new()).unwrap());
    store.put(&cmd).unwrap();
    let twice = drain(store.iter(ReadOptions::new()).unwrap());
    assert_eq!(once, twice);
}

#[test]
fn put_replaces_value_for_same_key() {
    let mut store: Store<Command> = Store::new();
    let first = Command { executable: 1, args: vec![s("a")], current_dir: None };
    let second = Command { executable: 1, args: vec![s("a")], current_dir: Some(s("/tmp")) };
    store.put(&first).unwrap();
    store.put(&second).unwrap();
    let key = first.key().unwrap();
    assert_eq!(store.get(&key).unwrap(), Some(second));
    assert_eq!(drain(store.iter(ReadOptions::new()).unwrap()).len(), 1);
}

#[test]
fn get_on_corrupt_value_reports_decoding_error() {
    let mut store: Store<Command> = Store::new();
    let cmd = sample();
    let key = cmd.key().unwrap();
    let mut value = cmd.encode().unwrap();
    value.pop(); // truncate the stored bytes
    store.put_bytes(key.as_slice().to_vec(), value, false).unwrap();
    assert_eq!(store.get(&key).unwrap_err(), Error::DecodingError);
}

#[test]
fn operations_after_close_fail() {
    let mut store: Store<Command> = Store::new();
    let cmd = sample();
    store.put(&cmd).unwrap();
    let key = cmd.key().unwrap();
    store.close();
    assert_eq!(store.put(&cmd).unwrap_err(), Error::ClosedHandleError);
    assert_eq!(store.put_sync(&cmd, true).unwrap_err(), Error::ClosedHandleError);
    assert_eq!(store.get(&key).unwrap_err(), Error::ClosedHandleError);
    assert_eq!(store.delete(false, &key).unwrap_err(), Error::ClosedHandleError);
    assert!(store.iter(ReadOptions::new()).is_err());
}

#[test]
fn iterator_snapshot_ignores_later_writes() {
    let mut store: Store<Command> = Store::new();
    let cmd = sample();
    store.put(&cmd).unwrap();
    let it = store.iter(ReadOptions::new()).unwrap();
    let key = cmd.key().unwrap();
    store.delete(false, &key).unwrap();
    assert_eq!(drain(it).len(), 1);
    assert_eq!(drain(store.iter(ReadOptions::new()).unwrap()).len(), 0);
}

#[test]
fn end_to_end_scenario() {
    let cmd = Command {
        executable: 1,
        args: vec![s("arg1"), s("arg2"), s("arg3")],
        current_dir: Some(s("\\dir")),
    };
    let key = cmd.key().unwrap();

    let mut store: Store<Command> = Store::new();
    store.put(&cmd).unwrap();

    let res = store.get(&key).unwrap();
    assert_eq!(res, Some(cmd.clone()));

    let mut iter = store.iter(ReadOptions::new()).unwrap();
    let (k, v) = iter.next().unwrap();
    let entry = (Command::decode_key(&k).unwrap(), Command::decode(&v).unwrap());
    assert_eq!(entry, ((cmd.executable, cmd.args.clone()), cmd));

    store.delete(false, &key).unwrap();
    assert!(store.get(&key).unwrap().is_none());
}

#[test]
fn read_options_default() {
    let opts = ReadOptions::new();
    assert!(!opts.verify_checksums);
    assert!(opts.fill_cache);
    let mut store: Store<Command> = Store::new();
    let cmd = sample();
    store.put_sync(&cmd, true).unwrap();
    let got = store
        .get_with_option(ReadOptions { verify_checksums: true, fill_cache: false }, &cmd.key().unwrap())
        .unwrap();
    assert_eq!(got, Some(cmd));
}

#[test]
fn keys_of_different_records_do_not_collide() {
    // structurally different keys sharing a byte-prefix relation
    let a = Command { executable: 1, args: vec![s("ab")], current_dir: None };
    let b = Command { executable: 1, args: vec![s("a"), s("b")], current_dir: None };
    let ka = a.key().unwrap();
    let kb = b.key().unwrap();
    assert!(ka != kb);
    let mut store: Store<Command> = Store::new();
    store.put(&a).unwrap();
    store.put(&b).unwrap();
    assert_eq!(store.get(&ka).unwrap(), Some(a));
    assert_eq!(store.get(&kb).unwrap(), Some(b));
}
