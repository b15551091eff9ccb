use ghteam_auth::pam::check_pam;
use ghteam_auth::roster::{Member, Roster, Team};
use ghteam_auth::status::Failure;

fn sample() -> Roster {
    let mut roster = Roster::new(Team { id: 77, name: "ops".to_string() });
    roster.insert(Member { id: 1001, login: "alice".to_string() });
    roster.insert(Member { id: 1002, login: "bob".to_string() });
    roster
}

#[test]
fn member_is_authorized() {
    assert_eq!(check_pam(Some(&sample()), "alice"), Ok(true));
    assert_eq!(check_pam(Some(&sample()), "bob"), Ok(true));
}

#[test]
fn stranger_is_not_authorized() {
    assert_eq!(check_pam(Some(&sample()), "mallory"), Ok(false));
    assert_eq!(check_pam(Some(&sample()), ""), Ok(false));
    assert_eq!(check_pam(Some(&sample()), "ops"), Ok(false));
}

#[test]
fn name_that_differs_in_case_is_not_authorized() {
    assert_eq!(check_pam(Some(&sample()), "Alice"), Ok(false));
    assert_eq!(check_pam(Some(&sample()), "ALICE"), Ok(false));
    assert_eq!(check_pam(Some(&sample()), "alice "), Ok(false));
}

#[test]
fn no_answer_without_the_directory() {
    assert_eq!(check_pam(None, "alice"), Err(Failure::Unavailable));
}
