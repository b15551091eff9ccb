use ghteam_auth::status::{reply, Failure, NssStatus};

#[test]
fn status_codes_are_those_of_the_resolver() {
    assert_eq!(i32::from(NssStatus::TryAgain), -2);
    assert_eq!(i32::from(NssStatus::Unavail), -1);
    assert_eq!(i32::from(NssStatus::NotFound), 0);
    assert_eq!(i32::from(NssStatus::Success), 1);
}

#[test]
fn reply_maps_each_outcome() {
    assert_eq!(reply(Ok(())), 1);
    assert_eq!(reply(Err(Failure::NotFound)), 0);
    assert_eq!(reply(Err(Failure::Unavailable)), -1);
    assert_eq!(reply(Err(Failure::Exhausted)), -1);
    assert_eq!(reply(Err(Failure::OutOfSpace)), 34);
}
