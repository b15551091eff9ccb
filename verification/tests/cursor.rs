use ghteam_auth::buffer::Buffer;
use ghteam_auth::cstructs::Passwd;
use ghteam_auth::cursor::Session;
use ghteam_auth::roster::{Config, Member, Roster, Team};
use ghteam_auth::status::Failure;

const BASE: usize = 0x3000;

fn conf() -> Config {
    Config {
        team: "ops".to_string(),
        gid: 2000,
        home: "/home/{}".to_string(),
        sh: "/bin/bash".to_string(),
    }
}

fn roster(logins: &[(&str, u64)]) -> Roster {
    let mut roster = Roster::new(Team { id: 77, name: "ops".to_string() });
    for (login, id) in logins {
        roster.insert(Member { id: *id, login: login.to_string() });
    }
    roster
}

fn next_login(session: &mut Session) -> Result<(Vec<u8>, u32), Failure> {
    let mut region = vec![0u8; 128];
    let mut buf = Buffer::new(&mut region, BASE);
    let mut pw = Passwd::empty();
    session.next(&conf(), &mut pw, &mut buf)?;
    Ok((buf.read_string(pw.name).unwrap(), pw.uid))
}

#[test]
fn enumeration_hands_out_each_member_once() {
    let mut session = Session::begin(&roster(&[("alice", 1001), ("bob", 1002), ("carol", 1003)]));
    assert_eq!(session.len(), 3);
    assert_eq!(session.cursor(), 0);
    assert_eq!(next_login(&mut session), Ok((b"alice".to_vec(), 1001)));
    assert_eq!(session.cursor(), 1);
    assert_eq!(next_login(&mut session), Ok((b"bob".to_vec(), 1002)));
    assert_eq!(next_login(&mut session), Ok((b"carol".to_vec(), 1003)));
    assert_eq!(session.cursor(), 3);
    assert_eq!(next_login(&mut session), Err(Failure::Exhausted));
    assert_eq!(next_login(&mut session), Err(Failure::Exhausted));
    assert_eq!(session.cursor(), 3);
}

#[test]
fn enumeration_of_nobody_is_exhausted_at_once() {
    let mut session = Session::begin(&roster(&[]));
    assert_eq!(session.len(), 0);
    assert_eq!(next_login(&mut session), Err(Failure::Exhausted));
    assert_eq!(session.cursor(), 0);
}

#[test]
fn record_that_does_not_fit_is_offered_again() {
    let mut session = Session::begin(&roster(&[("alice", 1001), ("bob", 1002)]));
    let mut small = vec![0u8; 30];
    let mut pw = Passwd::empty();
    {
        let mut buf = Buffer::new(&mut small, BASE);
        assert_eq!(session.next(&conf(), &mut pw, &mut buf), Err(Failure::OutOfSpace));
        assert_eq!(buf.used(), 0);
    }
    assert_eq!(pw, Passwd::empty());
    assert_eq!(session.cursor(), 0);
    let mut exact = vec![0u8; 31];
    let mut buf = Buffer::new(&mut exact, BASE);
    assert_eq!(session.next(&conf(), &mut pw, &mut buf), Ok(()));
    assert_eq!(buf.read_string(pw.name), Some(b"alice".to_vec()));
    assert_eq!(buf.read_string(pw.dir), Some(b"/home/alice".to_vec()));
    assert_eq!(session.cursor(), 1);
}

#[test]
fn snapshot_does_not_follow_the_roster() {
    let mut members = roster(&[("alice", 1001), ("bob", 1002)]);
    let mut session = Session::begin(&members);
    assert_eq!(next_login(&mut session), Ok((b"alice".to_vec(), 1001)));
    members.insert(Member { id: 9, login: "bob".to_string() });
    members.insert(Member { id: 1004, login: "dave".to_string() });
    assert_eq!(next_login(&mut session), Ok((b"bob".to_vec(), 1002)));
    assert_eq!(next_login(&mut session), Err(Failure::Exhausted));
}

#[test]
fn texts_of_a_session() {
    let mut session = Session::begin(&roster(&[("alice", 1001), ("bob", 4294967298)]));
    assert_eq!(session.index_text(), b"0".to_vec());
    assert_eq!(session.list_text(), b"alice\t1001\nbob\t4294967298\n".to_vec());
    assert_eq!(next_login(&mut session), Ok((b"alice".to_vec(), 1001)));
    assert_eq!(session.index_text(), b"1".to_vec());
    assert_eq!(session.list_text(), b"alice\t1001\nbob\t4294967298\n".to_vec());
    assert_eq!(Session::begin(&roster(&[])).list_text(), Vec::<u8>::new());
}

#[test]
fn session_is_restored_from_its_texts() {
    let mut session = Session::begin(&roster(&[("alice", 1001), ("bob", 1002)]));
    assert_eq!(next_login(&mut session), Ok((b"alice".to_vec(), 1001)));
    let mut restored = Session::restore(&session.index_text(), &session.list_text()).unwrap();
    assert_eq!(restored.len(), 2);
    assert_eq!(restored.cursor(), 1);
    assert_eq!(restored.list_text(), session.list_text());
    assert_eq!(next_login(&mut restored), Ok((b"bob".to_vec(), 1002)));
    assert_eq!(next_login(&mut restored), Err(Failure::Exhausted));
}

#[test]
fn restored_cursor_may_lie_behind_the_end() {
    let mut restored = Session::restore(b"7", b"alice\t1001\n").unwrap();
    assert_eq!(restored.cursor(), 7);
    assert_eq!(next_login(&mut restored), Err(Failure::Exhausted));
    assert_eq!(restored.cursor(), 7);
    let mut empty = Session::restore(b"0", b"").unwrap();
    assert_eq!(empty.len(), 0);
    assert_eq!(next_login(&mut empty), Err(Failure::Exhausted));
}

#[test]
fn texts_that_stand_for_no_session_are_refused() {
    assert!(Session::restore(b"", b"alice\t1001\n").is_none());
    assert!(Session::restore(b"x", b"alice\t1001\n").is_none());
    assert!(Session::restore(b"0\n", b"alice\t1001\n").is_none());
    assert!(Session::restore(b"0", b"alice\t1001").is_none());
    assert!(Session::restore(b"0", b"alice 1001\n").is_none());
    assert!(Session::restore(b"0", b"alice\t\n").is_none());
    assert!(Session::restore(b"0", b"alice\t10x\n").is_none());
    assert!(Session::restore(b"0", b"alice\t1\t2\n").is_none());
    assert!(Session::restore(b"0", b"alice\t1001\n\n").is_none());
    assert!(Session::restore(b"0", b"alice\t1001\nbob\n").is_none());
    assert!(Session::restore(b"0", b"alice\t18446744073709551616\n").is_none());
}

#[test]
fn restored_login_is_what_stands_before_the_first_tab() {
    let mut restored = Session::restore(b"+1", b"\t5\nzo\xc3\xa9\t+6\n").unwrap();
    assert_eq!(restored.len(), 2);
    assert_eq!(restored.cursor(), 1);
    assert_eq!(next_login(&mut restored), Ok(("zo\u{e9}".as_bytes().to_vec(), 6)));
}
