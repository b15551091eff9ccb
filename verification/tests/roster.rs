use ghteam_auth::roster::{to_id32, Member, Roster, Team};

fn member(id: u64, login: &str) -> Member {
    Member { id, login: login.to_string() }
}

fn sample() -> Roster {
    let mut roster = Roster::new(Team { id: 77, name: "ops".to_string() });
    roster.insert(member(1001, "alice"));
    roster.insert(member(1002, "bob"));
    roster.insert(member(1003, "carol"));
    roster
}

#[test]
fn new_roster_has_no_member() {
    let roster = Roster::new(Team { id: 77, name: "ops".to_string() });
    assert_eq!(roster.members().len(), 0);
    assert_eq!(roster.team().id, 77);
    assert_eq!(roster.team().name, "ops");
    assert!(roster.find("alice").is_none());
    assert!(!roster.contains("alice"));
    assert!(roster.login_list().is_empty());
}

#[test]
fn members_keep_the_order_of_insertion() {
    let roster = sample();
    assert_eq!(roster.login_list(), vec!["alice", "bob", "carol"]);
    assert_eq!(roster.members()[1], member(1002, "bob"));
}

#[test]
fn same_login_takes_the_place_of_the_old_entry() {
    let mut roster = sample();
    roster.insert(member(5000, "bob"));
    assert_eq!(roster.login_list(), vec!["alice", "bob", "carol"]);
    assert_eq!(roster.find("bob"), Some(&member(5000, "bob")));
    assert!(roster.find_uid(1002).is_none());
}

#[test]
fn find_is_exact() {
    let roster = sample();
    assert_eq!(roster.find("alice"), Some(&member(1001, "alice")));
    assert_eq!(roster.find("Alice"), None);
    assert_eq!(roster.find("alic"), None);
    assert_eq!(roster.find(""), None);
}

#[test]
fn find_by_user_id() {
    let roster = sample();
    assert_eq!(roster.find_uid(1003), Some(&member(1003, "carol")));
    assert_eq!(roster.find_uid(1), None);
}

#[test]
fn user_id_is_the_low_half_of_the_identifier() {
    assert_eq!(to_id32(1001), 1001);
    assert_eq!(to_id32(4294967296 + 5), 5);
    assert_eq!(to_id32(u64::MAX), u32::MAX);
    let mut roster = sample();
    roster.insert(member(4294967296 + 1002, "dave"));
    roster.insert(member(4294967296 + 9, "erin"));
    assert_eq!(roster.find_uid(9), Some(&member(4294967296 + 9, "erin")));
    // bob stands before dave, and both are kept by the host as 1002
    assert_eq!(roster.find_uid(1002), Some(&member(1002, "bob")));
}
