use ghteam_auth::buffer::Buffer;
use ghteam_auth::cstructs::{Group, Passwd, Spwd};
use ghteam_auth::layout::word_width;
use ghteam_auth::nss::{
    endgrent, endpwent, endspent, getgrent_r, getgrgid_r, getgrnam_r, getpwent_r, getpwnam_r,
    getpwuid_r, getspent_r, getspnam_r, setgrent, setpwent, setspent,
};
use ghteam_auth::roster::{Config, Member, Roster, Team};
use ghteam_auth::status::{reply, Failure};
use ghteam_auth::store::CursorStore;

const BASE: usize = 0x5000;

fn conf() -> Config {
    Config {
        team: "operators".to_string(),
        gid: 2000,
        home: "/home/{}".to_string(),
        sh: "/bin/bash".to_string(),
    }
}

fn sample() -> Roster {
    let mut roster = Roster::new(Team { id: 77, name: "ops".to_string() });
    roster.insert(Member { id: 1001, login: "alice".to_string() });
    roster.insert(Member { id: 1002, login: "bob".to_string() });
    roster.insert(Member { id: 1003, login: "christopher".to_string() });
    roster
}

// name, "x", home, shell, comment
fn user_len(login: &str) -> usize {
    (login.len() + 1) + 2 + ("/home/".len() + login.len() + 1) + 10 + 1
}

fn group_len(base: usize, roster: &Roster) -> usize {
    let w = word_width();
    let strings: usize = roster.team().name.len() + 1 + 2
        + roster.login_list().iter().map(|login| login.len() + 1).sum::<usize>();
    (base + strings + w - 1) / w * w - base + (roster.members().len() + 1) * w
}

#[test]
fn user_is_found_by_name() {
    let roster = sample();
    let mut region = vec![0u8; 128];
    let mut buf = Buffer::new(&mut region, BASE);
    let mut pw = Passwd::empty();
    assert_eq!(getpwnam_r(Some(&roster), &conf(), "bob", &mut pw, &mut buf), Ok(()));
    assert_eq!(pw.uid, 1002);
    assert_eq!(pw.gid, 2000);
    assert_eq!(buf.read_string(pw.name), Some(b"bob".to_vec()));
    assert_eq!(buf.read_string(pw.passwd), Some(b"x".to_vec()));
    assert_eq!(buf.read_string(pw.gecos), Some(Vec::new()));
    assert_eq!(buf.read_string(pw.dir), Some(b"/home/bob".to_vec()));
    assert_eq!(buf.read_string(pw.shell), Some(b"/bin/bash".to_vec()));
}

#[test]
fn unknown_name_is_not_found() {
    let roster = sample();
    let mut region = vec![0u8; 128];
    let mut buf = Buffer::new(&mut region, BASE);
    let mut pw = Passwd::empty();
    assert_eq!(
        getpwnam_r(Some(&roster), &conf(), "Bob", &mut pw, &mut buf),
        Err(Failure::NotFound)
    );
    assert_eq!(pw, Passwd::empty());
    assert_eq!(buf.used(), 0);
    assert_eq!(reply(Err(Failure::NotFound)), 0);
}

#[test]
fn user_is_found_by_id() {
    let roster = sample();
    let mut region = vec![0u8; 128];
    let mut buf = Buffer::new(&mut region, BASE);
    let mut pw = Passwd::empty();
    assert_eq!(getpwuid_r(Some(&roster), &conf(), 1003, &mut pw, &mut buf), Ok(()));
    assert_eq!(pw.uid, 1003);
    assert_eq!(buf.read_string(pw.name), Some(b"christopher".to_vec()));
    assert_eq!(buf.read_string(pw.dir), Some(b"/home/christopher".to_vec()));
    assert_eq!(
        getpwuid_r(Some(&roster), &conf(), 4, &mut pw, &mut buf),
        Err(Failure::NotFound)
    );
}

#[test]
fn nothing_is_answered_without_the_directory() {
    let mut region = vec![0u8; 128];
    let mut buf = Buffer::new(&mut region, BASE);
    let mut pw = Passwd::empty();
    let mut sp = Spwd::empty();
    let mut gr = Group::empty();
    let mut store = CursorStore::new();
    let unavailable = Err(Failure::Unavailable);
    assert_eq!(getpwnam_r(None, &conf(), "alice", &mut pw, &mut buf), unavailable);
    assert_eq!(getpwuid_r(None, &conf(), 1001, &mut pw, &mut buf), unavailable);
    assert_eq!(getspnam_r(None, "alice", &mut sp, &mut buf), unavailable);
    assert_eq!(getgrgid_r(None, &conf(), 2000, &mut gr, &mut buf), unavailable);
    assert_eq!(getgrgid_r(None, &conf(), 1, &mut gr, &mut buf), unavailable);
    assert_eq!(getgrnam_r(None, &conf(), "operators", &mut gr, &mut buf), unavailable);
    assert_eq!(setpwent(&mut store, 1, None), unavailable);
    assert_eq!(buf.used(), 0);
    assert_eq!(reply(unavailable), -1);
}

#[test]
fn buffer_for_the_largest_record_serves_every_user() {
    let roster = sample();
    let largest = user_len("christopher");
    let mut region = vec![0u8; largest];
    let mut store = CursorStore::new();
    assert_eq!(setpwent(&mut store, 1, Some(&roster)), Ok(()));
    for member in roster.members() {
        let mut pw = Passwd::empty();
        {
            let mut buf = Buffer::new(&mut region, BASE);
            assert_eq!(
                getpwnam_r(Some(&roster), &conf(), &member.login, &mut pw, &mut buf),
                Ok(())
            );
            assert_eq!(buf.used(), user_len(&member.login));
        }
        for addr in [pw.name, pw.passwd, pw.gecos, pw.dir, pw.shell] {
            assert!(BASE <= addr && addr < BASE + largest);
        }
        {
            let mut buf = Buffer::new(&mut region, BASE);
            let uid = member.id as u32;
            assert_eq!(getpwuid_r(Some(&roster), &conf(), uid, &mut pw, &mut buf), Ok(()));
        }
        {
            let mut buf = Buffer::new(&mut region, BASE);
            assert_eq!(getpwent_r(&mut store, 1, &conf(), &mut pw, &mut buf), Ok(()));
            assert_eq!(buf.read_string(pw.name), Some(member.login.as_bytes().to_vec()));
        }
    }
}

#[test]
fn buffer_one_byte_short_gives_no_user() {
    let roster = sample();
    let mut store = CursorStore::new();
    assert_eq!(setpwent(&mut store, 1, Some(&roster)), Ok(()));
    let mut region = vec![0u8; user_len("alice") - 1];
    let mut pw = Passwd::empty();
    let out_of_space = Err(Failure::OutOfSpace);
    {
        let mut buf = Buffer::new(&mut region, BASE);
        assert_eq!(getpwnam_r(Some(&roster), &conf(), "alice", &mut pw, &mut buf), out_of_space);
        assert_eq!(getpwuid_r(Some(&roster), &conf(), 1001, &mut pw, &mut buf), out_of_space);
        assert_eq!(getpwent_r(&mut store, 1, &conf(), &mut pw, &mut buf), out_of_space);
        assert_eq!(buf.used(), 0);
    }
    assert_eq!(pw, Passwd::empty());
    assert_eq!(store.index_text(1), Some(b"0".to_vec()));
    assert_eq!(reply(out_of_space), 34);
    // bob's record is shorter and fits
    let mut buf = Buffer::new(&mut region, BASE);
    assert_eq!(getpwnam_r(Some(&roster), &conf(), "bob", &mut pw, &mut buf), Ok(()));
}

#[test]
fn enumeration_ends_after_the_last_member() {
    let roster = sample();
    let mut store = CursorStore::new();
    let mut region = vec![0u8; 128];
    let mut pw = Passwd::empty();
    let mut seen: Vec<Vec<u8>> = Vec::new();
    {
        let mut buf = Buffer::new(&mut region, BASE);
        assert_eq!(
            getpwent_r(&mut store, 1, &conf(), &mut pw, &mut buf),
            Err(Failure::Unavailable)
        );
    }
    assert_eq!(setpwent(&mut store, 1, Some(&roster)), Ok(()));
    for _ in 0..3 {
        let mut buf = Buffer::new(&mut region, BASE);
        assert_eq!(getpwent_r(&mut store, 1, &conf(), &mut pw, &mut buf), Ok(()));
        seen.push(buf.read_string(pw.name).unwrap());
    }
    assert_eq!(seen, vec![b"alice".to_vec(), b"bob".to_vec(), b"christopher".to_vec()]);
    for _ in 0..4 {
        let mut buf = Buffer::new(&mut region, BASE);
        assert_eq!(
            getpwent_r(&mut store, 1, &conf(), &mut pw, &mut buf),
            Err(Failure::Exhausted)
        );
    }
    assert_eq!(reply(Err(Failure::Exhausted)), -1);
    assert_eq!(endpwent(&mut store, 1), Ok(()));
    let mut buf = Buffer::new(&mut region, BASE);
    assert_eq!(
        getpwent_r(&mut store, 1, &conf(), &mut pw, &mut buf),
        Err(Failure::Unavailable)
    );
}

#[test]
fn enumeration_keeps_the_roster_it_began_on() {
    let mut roster = sample();
    let mut store = CursorStore::new();
    let mut region = vec![0u8; 128];
    let mut pw = Passwd::empty();
    assert_eq!(setpwent(&mut store, 1, Some(&roster)), Ok(()));
    {
        let mut buf = Buffer::new(&mut region, BASE);
        assert_eq!(getpwent_r(&mut store, 1, &conf(), &mut pw, &mut buf), Ok(()));
    }
    roster.insert(Member { id: 7, login: "bob".to_string() });
    roster.insert(Member { id: 1004, login: "dave".to_string() });
    assert_eq!(setpwent(&mut store, 2, Some(&roster)), Ok(()));
    {
        let mut buf = Buffer::new(&mut region, BASE);
        assert_eq!(getpwent_r(&mut store, 1, &conf(), &mut pw, &mut buf), Ok(()));
        assert_eq!(buf.read_string(pw.name), Some(b"bob".to_vec()));
        assert_eq!(pw.uid, 1002);
    }
    {
        let mut buf = Buffer::new(&mut region, BASE);
        assert_eq!(getpwent_r(&mut store, 1, &conf(), &mut pw, &mut buf), Ok(()));
        assert_eq!(buf.read_string(pw.name), Some(b"christopher".to_vec()));
    }
    let mut buf = Buffer::new(&mut region, BASE);
    assert_eq!(
        getpwent_r(&mut store, 1, &conf(), &mut pw, &mut buf),
        Err(Failure::Exhausted)
    );
    assert_eq!(getpwent_r(&mut store, 2, &conf(), &mut pw, &mut buf), Ok(()));
    assert_eq!(buf.read_string(pw.name), Some(b"alice".to_vec()));
}

#[test]
fn begin_without_the_directory_leaves_no_enumeration() {
    let roster = sample();
    let mut store = CursorStore::new();
    assert_eq!(setpwent(&mut store, 1, Some(&roster)), Ok(()));
    assert_eq!(setpwent(&mut store, 1, None), Err(Failure::Unavailable));
    assert!(!store.contains(1));
}

#[test]
fn end_always_succeeds() {
    let roster = sample();
    let mut store = CursorStore::new();
    assert_eq!(endpwent(&mut store, 1), Ok(()));
    assert_eq!(setpwent(&mut store, 1, Some(&roster)), Ok(()));
    assert_eq!(endpwent(&mut store, 1), Ok(()));
    assert_eq!(endpwent(&mut store, 1), Ok(()));
    assert!(!store.contains(1));
    assert_eq!(reply(endpwent(&mut store, 1)), 1);
}

#[test]
fn shadow_of_a_member() {
    let roster = sample();
    let mut region = vec![0u8; 9];
    let mut buf = Buffer::new(&mut region, BASE);
    let mut sp = Spwd::empty();
    assert_eq!(getspnam_r(Some(&roster), "alice", &mut sp, &mut buf), Ok(()));
    assert_eq!(buf.read_string(sp.namp), Some(b"alice".to_vec()));
    assert_eq!(buf.read_string(sp.pwdp), Some(b"!!".to_vec()));
    assert_eq!(
        [sp.lstchg, sp.min, sp.max, sp.warn, sp.inact, sp.expire],
        [-1, -1, -1, -1, -1, -1]
    );
    assert_eq!(sp.flag, 0);
}

#[test]
fn shadow_of_a_stranger_or_in_a_short_buffer() {
    let roster = sample();
    let mut region = vec![0u8; 8];
    let mut buf = Buffer::new(&mut region, BASE);
    let mut sp = Spwd::empty();
    assert_eq!(
        getspnam_r(Some(&roster), "mallory", &mut sp, &mut buf),
        Err(Failure::NotFound)
    );
    assert_eq!(
        getspnam_r(Some(&roster), "alice", &mut sp, &mut buf),
        Err(Failure::OutOfSpace)
    );
    assert_eq!(sp, Spwd::empty());
    assert_eq!(buf.used(), 0);
    assert_eq!(getspnam_r(Some(&roster), "bob", &mut sp, &mut buf), Ok(()));
}

#[test]
fn shadow_and_group_are_not_enumerated() {
    assert_eq!(setspent(), Ok(()));
    assert_eq!(getspent_r(), Err(Failure::Unavailable));
    assert_eq!(endspent(), Ok(()));
    assert_eq!(setgrent(), Ok(()));
    assert_eq!(getgrent_r(), Err(Failure::Unavailable));
    assert_eq!(endgrent(), Ok(()));
}

#[test]
fn group_is_found_by_the_configured_id() {
    let roster = sample();
    let mut region = vec![0u8; 256];
    let mut buf = Buffer::new(&mut region, BASE);
    let mut gr = Group::empty();
    assert_eq!(getgrgid_r(Some(&roster), &conf(), 2000, &mut gr, &mut buf), Ok(()));
    assert_eq!(gr.gid, 2000);
    assert_eq!(buf.read_string(gr.name), Some(b"ops".to_vec()));
    assert_eq!(buf.read_string(gr.passwd), Some(b"x".to_vec()));
    assert_eq!(
        buf.read_strings(gr.mem),
        Some(vec![b"alice".to_vec(), b"bob".to_vec(), b"christopher".to_vec()])
    );
    assert_eq!(buf.used(), group_len(BASE, &roster));
}

#[test]
fn group_is_found_by_the_configured_name() {
    let roster = sample();
    let mut region = vec![0u8; 256];
    let mut buf = Buffer::new(&mut region, BASE);
    let mut gr = Group::empty();
    assert_eq!(getgrnam_r(Some(&roster), &conf(), "operators", &mut gr, &mut buf), Ok(()));
    // by name the group goes under the identifier of the team
    assert_eq!(gr.gid, 77);
    assert_eq!(buf.read_string(gr.name), Some(b"ops".to_vec()));
    assert_eq!(buf.read_string(gr.passwd), Some(b"x".to_vec()));
    assert_eq!(
        buf.read_strings(gr.mem),
        Some(vec![b"alice".to_vec(), b"bob".to_vec(), b"christopher".to_vec()])
    );
}

#[test]
fn other_groups_are_not_found() {
    let roster = sample();
    let mut region = vec![0u8; 256];
    let mut buf = Buffer::new(&mut region, BASE);
    let mut gr = Group::empty();
    let not_found = Err(Failure::NotFound);
    assert_eq!(getgrgid_r(Some(&roster), &conf(), 77, &mut gr, &mut buf), not_found);
    assert_eq!(getgrgid_r(Some(&roster), &conf(), 2001, &mut gr, &mut buf), not_found);
    assert_eq!(getgrnam_r(Some(&roster), &conf(), "ops", &mut gr, &mut buf), not_found);
    assert_eq!(getgrnam_r(Some(&roster), &conf(), "Operators", &mut gr, &mut buf), not_found);
    assert_eq!(gr, Group::empty());
    assert_eq!(buf.used(), 0);
}

#[test]
fn group_fits_exactly_or_not_at_all() {
    let roster = sample();
    let needed = group_len(BASE, &roster);
    let mut region = vec![0u8; needed];
    let mut gr = Group::empty();
    {
        let mut buf = Buffer::new(&mut region, BASE);
        assert_eq!(getgrgid_r(Some(&roster), &conf(), 2000, &mut gr, &mut buf), Ok(()));
        assert_eq!(buf.remaining(), 0);
        assert!(BASE <= gr.mem && gr.mem < BASE + needed);
    }
    {
        let mut buf = Buffer::new(&mut region, BASE);
        assert_eq!(getgrnam_r(Some(&roster), &conf(), "operators", &mut gr, &mut buf), Ok(()));
    }
    let mut gr = Group::empty();
    let mut buf = Buffer::new(&mut region[..needed - 1], BASE);
    assert_eq!(
        getgrgid_r(Some(&roster), &conf(), 2000, &mut gr, &mut buf),
        Err(Failure::OutOfSpace)
    );
    assert_eq!(
        getgrnam_r(Some(&roster), &conf(), "operators", &mut gr, &mut buf),
        Err(Failure::OutOfSpace)
    );
    assert_eq!(gr, Group::empty());
    assert_eq!(buf.used(), 0);
}

#[test]
fn group_members_follow_the_roster_without_repeats() {
    let mut roster = sample();
    roster.insert(Member { id: 1, login: "alice".to_string() });
    roster.insert(Member { id: 1005, login: "erin".to_string() });
    let mut region = vec![0u8; 256];
    let mut buf = Buffer::new(&mut region, BASE);
    let mut gr = Group::empty();
    assert_eq!(getgrgid_r(Some(&roster), &conf(), 2000, &mut gr, &mut buf), Ok(()));
    let members = buf.read_strings(gr.mem).unwrap();
    assert_eq!(
        members,
        vec![b"alice".to_vec(), b"bob".to_vec(), b"christopher".to_vec(), b"erin".to_vec()]
    );
    let listed: Vec<Vec<u8>> =
        roster.login_list().iter().map(|login| login.as_bytes().to_vec()).collect();
    assert_eq!(members, listed);
}
