use ghteam_auth::buffer::Buffer;
use ghteam_auth::cstructs::Passwd;
use ghteam_auth::roster::{Config, Member, Roster, Team};
use ghteam_auth::status::Failure;
use ghteam_auth::store::CursorStore;

const BASE: usize = 0x4000;

fn conf() -> Config {
    Config {
        team: "ops".to_string(),
        gid: 2000,
        home: "/home/{}".to_string(),
        sh: "/bin/bash".to_string(),
    }
}

fn roster(logins: &[(&str, u64)]) -> Roster {
    let mut roster = Roster::new(Team { id: 77, name: "ops".to_string() });
    for (login, id) in logins {
        roster.insert(Member { id: *id, login: login.to_string() });
    }
    roster
}

fn next_login(store: &mut CursorStore, pid: i32) -> Result<Vec<u8>, Failure> {
    let mut region = vec![0u8; 128];
    let mut buf = Buffer::new(&mut region, BASE);
    let mut pw = Passwd::empty();
    store.next(pid, &conf(), &mut pw, &mut buf)?;
    Ok(buf.read_string(pw.name).unwrap())
}

#[test]
fn process_without_session_has_nothing_to_read() {
    let mut store = CursorStore::new();
    assert!(!store.contains(10));
    assert_eq!(next_login(&mut store, 10), Err(Failure::Unavailable));
    assert_eq!(store.index_text(10), None);
    assert_eq!(store.list_text(10), None);
}

#[test]
fn sessions_of_two_processes_do_not_meet() {
    let mut store = CursorStore::new();
    store.begin(10, &roster(&[("alice", 1001), ("bob", 1002)]));
    store.begin(20, &roster(&[("carol", 1003)]));
    assert!(store.contains(10));
    assert!(store.contains(20));
    assert_eq!(next_login(&mut store, 10), Ok(b"alice".to_vec()));
    assert_eq!(next_login(&mut store, 20), Ok(b"carol".to_vec()));
    assert_eq!(next_login(&mut store, 20), Err(Failure::Exhausted));
    assert_eq!(next_login(&mut store, 10), Ok(b"bob".to_vec()));
    store.end(20);
    assert_eq!(next_login(&mut store, 20), Err(Failure::Unavailable));
    assert_eq!(next_login(&mut store, 10), Err(Failure::Exhausted));
    assert_eq!(store.index_text(10), Some(b"2".to_vec()));
}

#[test]
fn begin_starts_over() {
    let mut store = CursorStore::new();
    store.begin(10, &roster(&[("alice", 1001), ("bob", 1002)]));
    assert_eq!(next_login(&mut store, 10), Ok(b"alice".to_vec()));
    store.begin(10, &roster(&[("carol", 1003), ("dave", 1004)]));
    assert_eq!(store.index_text(10), Some(b"0".to_vec()));
    assert_eq!(next_login(&mut store, 10), Ok(b"carol".to_vec()));
}

#[test]
fn end_may_come_twice_or_without_begin() {
    let mut store = CursorStore::new();
    store.end(10);
    assert!(!store.contains(10));
    store.begin(10, &roster(&[("alice", 1001)]));
    store.end(10);
    store.end(10);
    assert!(!store.contains(10));
    assert_eq!(next_login(&mut store, 10), Err(Failure::Unavailable));
}

#[test]
fn session_goes_through_its_texts() {
    let mut first = CursorStore::new();
    first.begin(10, &roster(&[("alice", 1001), ("bob", 1002)]));
    assert_eq!(next_login(&mut first, 10), Ok(b"alice".to_vec()));
    let index = first.index_text(10).unwrap();
    let list = first.list_text(10).unwrap();
    assert_eq!(index, b"1".to_vec());
    assert_eq!(list, b"alice\t1001\nbob\t1002\n".to_vec());
    let mut second = CursorStore::new();
    assert!(second.load(10, &index, &list));
    assert_eq!(next_login(&mut second, 10), Ok(b"bob".to_vec()));
    assert_eq!(next_login(&mut second, 10), Err(Failure::Exhausted));
}

#[test]
fn texts_that_stand_for_no_session_leave_none() {
    let mut store = CursorStore::new();
    store.begin(10, &roster(&[("alice", 1001)]));
    assert!(!store.load(10, b"zero", b"alice\t1001\n"));
    assert!(!store.contains(10));
    assert_eq!(next_login(&mut store, 10), Err(Failure::Unavailable));
}
