//! The requests of the host's resolver: lookups and enumerations of user,
//! shadow and group records.
//!
//! Each request is given the roster as the directory returned it for this
//! request, or nothing where the directory could not be asked. A request
//! that does not end in `Ok` leaves the record and the buffer as they
//! were.

use crate::buffer::{encodings, Buffer};
use crate::memory::BufferView;
use crate::cstructs::{password_elsewhere, password_none, Group, Passwd, Spwd};
use crate::cursor::SessionView;
use crate::roster::{id32, to_id32, Config, Member, Roster, RosterView};
use crate::status::{Failure, Outcome};
use crate::store::CursorStore;
use crate::text::same_text;
use vstd::prelude::*;
use vstd::utf8::encode_utf8;

verus! {

/// What the directory returned, as the requests see it.
pub open spec fn seen(roster: Option<&Roster>) -> Option<RosterView> {
    match roster {
        Some(roster) => Some(roster@),
        None => None,
    }
}

/// What packing a record of `needed` bytes comes to.
pub open spec fn packing(needed: int, buffer: BufferView) -> Outcome {
    if buffer.fits(needed) {
        Ok(())
    } else {
        Err(Failure::OutOfSpace)
    }
}

/// The number of bytes that the user record of `member` takes.
pub open spec fn user_len(member: Member, conf: Config) -> int {
    Passwd::user_bytes(encode_utf8(member.login@), conf).len() as int
}

/// The number of bytes that the shadow record of `member` takes.
pub open spec fn shadow_len(member: Member) -> int {
    Spwd::bytes(encode_utf8(member.login@), password_none()).len() as int
}

/// The number of bytes that the group record of the team takes in
/// `buffer`.
pub open spec fn group_len(roster: RosterView, buffer: BufferView) -> int {
    Group::bytes(
        buffer.next(),
        encode_utf8(roster.team.name@),
        password_elsewhere(),
        roster.logins(),
    ).len() as int
}

/// What the lookup of a user comes to, where `found` is the member that
/// the roster has for the key.
pub open spec fn user_outcome(
    roster: Option<RosterView>,
    found: Option<Member>,
    conf: Config,
    buffer: BufferView,
) -> Outcome {
    if roster is None {
        Err(Failure::Unavailable)
    } else {
        match found {
            None => Err(Failure::NotFound),
            Some(member) => packing(user_len(member, conf), buffer),
        }
    }
}

/// What the lookup of a user by login name comes to.
pub open spec fn getpwnam_outcome(
    roster: Option<RosterView>,
    conf: Config,
    name: Seq<char>,
    buffer: BufferView,
) -> Outcome {
    match roster {
        None => Err(Failure::Unavailable),
        Some(members) => user_outcome(roster, members.by_login(name), conf, buffer),
    }
}

/// What the lookup of a user by user id comes to.
pub open spec fn getpwuid_outcome(
    roster: Option<RosterView>,
    conf: Config,
    uid: u32,
    buffer: BufferView,
) -> Outcome {
    match roster {
        None => Err(Failure::Unavailable),
        Some(members) => user_outcome(roster, members.by_uid(uid), conf, buffer),
    }
}

/// What the lookup of a shadow record by login name comes to.
pub open spec fn getspnam_outcome(
    roster: Option<RosterView>,
    name: Seq<char>,
    buffer: BufferView,
) -> Outcome {
    match roster {
        None => Err(Failure::Unavailable),
        Some(members) => match members.by_login(name) {
            None => Err(Failure::NotFound),
            Some(member) => packing(shadow_len(member), buffer),
        },
    }
}

/// What the lookup of a group comes to, where `matches` says whether the
/// key is that of the team.
pub open spec fn group_outcome(
    roster: Option<RosterView>,
    matches: bool,
    buffer: BufferView,
) -> Outcome {
    match roster {
        None => Err(Failure::Unavailable),
        Some(members) => if matches {
            packing(group_len(members, buffer), buffer)
        } else {
            Err(Failure::NotFound)
        },
    }
}

/// What the next request of an enumeration comes to.
pub open spec fn getpwent_outcome(
    session: Option<SessionView>,
    conf: Config,
    buffer: BufferView,
) -> Outcome {
    match session {
        None => Err(Failure::Unavailable),
        Some(session) => match session.current() {
            None => Err(Failure::Exhausted),
            Some(entry) => packing(Passwd::user_bytes(entry.login, conf).len() as int, buffer),
        },
    }
}

/// The session of the process `key`, if it has one.
pub open spec fn session_of(store: Map<libc::pid_t, SessionView>, key: libc::pid_t) -> Option<
    SessionView,
> {
    if store.contains_key(key) {
        Some(store[key])
    } else {
        None
    }
}

/// Packs the user record of `member`, or says why there is none.
fn answer_user(
    roster: Option<&Roster>,
    found: Option<&Member>,
    conf: &Config,
    pw: &mut Passwd,
    buf: &mut Buffer,
) -> (outcome: Outcome)
    requires
        old(buf).wf(),
        roster is None ==> found is None,
    ensures
        final(buf).wf(),
        match found {
            Some(member) => {
                &&& outcome == user_outcome(seen(roster), Some(*member), *conf, old(buf)@)
                &&& outcome is Ok ==> {
                    &&& final(buf)@ == old(buf)@.write(
                        Passwd::user_bytes(encode_utf8(member.login@), *conf),
                    )
                    &&& *final(pw) == Passwd::user(
                        old(buf)@.next(),
                        encode_utf8(member.login@),
                        member.id,
                        *conf,
                    )
                    &&& final(pw).shows_user(final(buf)@, encode_utf8(member.login@), *conf)
                    &&& final(pw).within(final(buf)@)
                }
            },
            None => outcome == user_outcome(seen(roster), None, *conf, old(buf)@),
        },
        outcome is Err ==> final(buf)@ == old(buf)@ && *final(pw) == *old(pw),
{
    if roster.is_none() {
        return Err(Failure::Unavailable);
    }
    match found {
        Some(member) => match pw.pack_args(buf, member.login.as_str(), member.id, conf) {
            Ok(_) => Ok(()),
            Err(_) => Err(Failure::OutOfSpace),
        },
        None => Err(Failure::NotFound),
    }
}

/// Looks up the user with the login name `name`, letter for letter, and
/// packs the user record as `Passwd::pack_args` does.
pub fn getpwnam_r(
    roster: Option<&Roster>,
    conf: &Config,
    name: &str,
    pw: &mut Passwd,
    buf: &mut Buffer,
) -> (outcome: Outcome)
    requires
        old(buf).wf(),
    ensures
        final(buf).wf(),
        outcome == getpwnam_outcome(seen(roster), *conf, name@, old(buf)@),
        outcome is Ok ==> {
            let member = roster->0@.by_login(name@)->0;
            &&& final(buf)@ == old(buf)@.write(
                Passwd::user_bytes(encode_utf8(member.login@), *conf),
            )
            &&& *final(pw) == Passwd::user(
                old(buf)@.next(),
                encode_utf8(member.login@),
                member.id,
                *conf,
            )
            &&& final(pw).shows_user(final(buf)@, encode_utf8(member.login@), *conf)
            &&& final(pw).within(final(buf)@)
        },
        outcome is Err ==> final(buf)@ == old(buf)@ && *final(pw) == *old(pw),
{
    let found: Option<&Member> = match roster {
        Some(members) => members.find(name),
        None => None,
    };
    answer_user(roster, found, conf, pw, buf)
}

/// Looks up the first user of the roster whose identifier the host keeps
/// as `uid`, and packs the user record as `Passwd::pack_args` does.
pub fn getpwuid_r(
    roster: Option<&Roster>,
    conf: &Config,
    uid: libc::uid_t,
    pw: &mut Passwd,
    buf: &mut Buffer,
) -> (outcome: Outcome)
    requires
        old(buf).wf(),
    ensures
        final(buf).wf(),
        outcome == getpwuid_outcome(seen(roster), *conf, uid, old(buf)@),
        outcome is Ok ==> {
            let member = roster->0@.by_uid(uid)->0;
            &&& final(buf)@ == old(buf)@.write(
                Passwd::user_bytes(encode_utf8(member.login@), *conf),
            )
            &&& *final(pw) == Passwd::user(
                old(buf)@.next(),
                encode_utf8(member.login@),
                member.id,
                *conf,
            )
            &&& final(pw).shows_user(final(buf)@, encode_utf8(member.login@), *conf)
            &&& final(pw).within(final(buf)@)
        },
        outcome is Err ==> final(buf)@ == old(buf)@ && *final(pw) == *old(pw),
{
    let found: Option<&Member> = match roster {
        Some(members) => members.find_uid(uid),
        None => None,
    };
    answer_user(roster, found, conf, pw, buf)
}

/// Begins the enumeration of the process `pid` on the roster, in the
/// place of the one that the process had. Where the directory could not
/// be asked, the process is left without an enumeration.
pub fn setpwent(
    store: &mut CursorStore,
    pid: libc::pid_t,
    roster: Option<&Roster>,
) -> (outcome: Outcome)
    ensures
        match roster {
            Some(members) => {
                &&& outcome == Ok::<(), Failure>(())
                &&& final(store)@ == old(store)@.insert(pid, SessionView::begin(members@))
            },
            None => {
                &&& outcome == Err::<(), Failure>(Failure::Unavailable)
                &&& final(store)@ == old(store)@.remove(pid)
            },
        },
{
    match roster {
        Some(members) => {
            store.begin(pid, members);
            Ok(())
        },
        None => {
            store.end(pid);
            Err(Failure::Unavailable)
        },
    }
}

/// Hands out the next user of the enumeration of the process `pid` and
/// moves its cursor on. The enumerations of other processes never change,
/// and that of `pid` changes only where the outcome is `Ok`.
pub fn getpwent_r(
    store: &mut CursorStore,
    pid: libc::pid_t,
    conf: &Config,
    pw: &mut Passwd,
    buf: &mut Buffer,
) -> (outcome: Outcome)
    requires
        old(buf).wf(),
    ensures
        final(buf).wf(),
        outcome == getpwent_outcome(session_of(old(store)@, pid), *conf, old(buf)@),
        outcome is Ok ==> {
            let entry = old(store)@[pid].current()->0;
            &&& final(store)@ == old(store)@.insert(pid, old(store)@[pid].advance())
            &&& final(buf)@ == old(buf)@.write(Passwd::user_bytes(entry.login, *conf))
            &&& *final(pw) == Passwd::user(old(buf)@.next(), entry.login, entry.id, *conf)
            &&& final(pw).shows_user(final(buf)@, entry.login, *conf)
            &&& final(pw).within(final(buf)@)
        },
        outcome is Err ==> {
            &&& final(store)@ == old(store)@
            &&& final(buf)@ == old(buf)@
            &&& *final(pw) == *old(pw)
        },
{
    let outcome = store.next(pid, conf, pw, buf);
    proof {
        if old(store)@.contains_key(pid) {
            if outcome is Ok {
                assert(store@ =~= old(store)@.insert(pid, old(store)@[pid].advance()));
            } else {
                assert(store@ =~= old(store)@);
            }
        } else {
            assert(store@ =~= old(store)@);
        }
    }
    outcome
}

/// Ends the enumeration of the process `pid`. This succeeds whether or not
/// the process had one.
pub fn endpwent(store: &mut CursorStore, pid: libc::pid_t) -> (outcome: Outcome)
    ensures
        outcome == Ok::<(), Failure>(()),
        final(store)@ == old(store)@.remove(pid),
{
    store.end(pid);
    Ok(())
}

/// Looks up the user with the login name `name`, letter for letter, and
/// packs the shadow record as `Spwd::pack_args` does.
pub fn getspnam_r(
    roster: Option<&Roster>,
    name: &str,
    spwd: &mut Spwd,
    buf: &mut Buffer,
) -> (outcome: Outcome)
    requires
        old(buf).wf(),
    ensures
        final(buf).wf(),
        outcome == getspnam_outcome(seen(roster), name@, old(buf)@),
        outcome is Ok ==> {
            let login = encode_utf8(roster->0@.by_login(name@)->0.login@);
            &&& final(buf)@ == old(buf)@.write(Spwd::bytes(login, password_none()))
            &&& *final(spwd) == Spwd::shadow(old(buf)@.next(), login)
            &&& final(spwd).shows(final(buf)@, login, password_none())
            &&& final(spwd).within(final(buf)@)
        },
        outcome is Err ==> final(buf)@ == old(buf)@ && *final(spwd) == *old(spwd),
{
    let members: &Roster = match roster {
        Some(members) => members,
        None => {
            return Err(Failure::Unavailable);
        },
    };
    match members.find(name) {
        Some(member) => match spwd.pack_args(buf, member.login.as_str()) {
            Ok(_) => Ok(()),
            Err(_) => Err(Failure::OutOfSpace),
        },
        None => Err(Failure::NotFound),
    }
}

/// Shadow records are not enumerated: beginning does nothing.
pub fn setspent() -> (outcome: Outcome)
    ensures
        outcome == Ok::<(), Failure>(()),
{
    Ok(())
}

/// Shadow records are not enumerated: there is never a next one.
pub fn getspent_r() -> (outcome: Outcome)
    ensures
        outcome == Err::<(), Failure>(Failure::Unavailable),
{
    Err(Failure::Unavailable)
}

/// Shadow records are not enumerated: ending does nothing.
pub fn endspent() -> (outcome: Outcome)
    ensures
        outcome == Ok::<(), Failure>(()),
{
    Ok(())
}

/// Packs the group record of the team with the group id `gid`: the name
/// is that of the team, the password field is `x`, and the members are the
/// login names of the whole roster, in its order.
fn answer_group(
    members: &Roster,
    gid: libc::gid_t,
    group: &mut Group,
    buf: &mut Buffer,
) -> (outcome: Outcome)
    requires
        old(buf).wf(),
    ensures
        final(buf).wf(),
        outcome == packing(group_len(members@, old(buf)@), old(buf)@),
        outcome is Ok ==> {
            let name = encode_utf8(members@.team.name@);
            &&& final(buf)@ == old(buf)@.write(
                Group::bytes(old(buf)@.next(), name, password_elsewhere(), members@.logins()),
            )
            &&& *final(group) == Group::laid_out(
                old(buf)@.next(),
                name,
                password_elsewhere(),
                gid,
                members@.logins(),
            )
            &&& final(group).shows(final(buf)@, name, password_elsewhere(), members@.logins())
            &&& final(group).within(final(buf)@)
        },
        outcome is Err ==> final(buf)@ == old(buf)@ && *final(group) == *old(group),
{
    let logins: Vec<&str> = members.login_list();
    assert(encodings(logins@) =~= members@.logins());
    let elsewhere: [u8; 1] = [0x78];
    assert(elsewhere@ =~= password_elsewhere());
    match group.pack(
        buf,
        members.team().name.as_str().as_bytes(),
        elsewhere.as_slice(),
        gid,
        &logins,
    ) {
        Ok(_) => Ok(()),
        Err(_) => Err(Failure::OutOfSpace),
    }
}

/// Looks up the group with the group id `gid`. There is one such group,
/// where `gid` is the group id of `conf`: the team, with the login names
/// of the whole roster as its members.
pub fn getgrgid_r(
    roster: Option<&Roster>,
    conf: &Config,
    gid: libc::gid_t,
    group: &mut Group,
    buf: &mut Buffer,
) -> (outcome: Outcome)
    requires
        old(buf).wf(),
    ensures
        final(buf).wf(),
        outcome == group_outcome(seen(roster), gid == id32(conf.gid), old(buf)@),
        outcome is Ok ==> {
            let members = roster->0@;
            let name = encode_utf8(members.team.name@);
            &&& final(buf)@ == old(buf)@.write(
                Group::bytes(old(buf)@.next(), name, password_elsewhere(), members.logins()),
            )
            &&& *final(group) == Group::laid_out(
                old(buf)@.next(),
                name,
                password_elsewhere(),
                gid,
                members.logins(),
            )
            &&& final(group).shows(final(buf)@, name, password_elsewhere(), members.logins())
            &&& final(group).within(final(buf)@)
        },
        outcome is Err ==> final(buf)@ == old(buf)@ && *final(group) == *old(group),
{
    let members: &Roster = match roster {
        Some(members) => members,
        None => {
            return Err(Failure::Unavailable);
        },
    };
    if gid == to_id32(conf.gid) {
        answer_group(members, gid, group, buf)
    } else {
        Err(Failure::NotFound)
    }
}

/// Looks up the group with the name `name`. There is one such group,
/// where `name` is the team name of `conf`, letter for letter: the team,
/// under its own identifier as the group id, with the login names of the
/// whole roster as its members.
pub fn getgrnam_r(
    roster: Option<&Roster>,
    conf: &Config,
    name: &str,
    group: &mut Group,
    buf: &mut Buffer,
) -> (outcome: Outcome)
    requires
        old(buf).wf(),
    ensures
        final(buf).wf(),
        outcome == group_outcome(seen(roster), name@ == conf.team@, old(buf)@),
        outcome is Ok ==> {
            let members = roster->0@;
            let name = encode_utf8(members.team.name@);
            &&& final(buf)@ == old(buf)@.write(
                Group::bytes(old(buf)@.next(), name, password_elsewhere(), members.logins()),
            )
            &&& *final(group) == Group::laid_out(
                old(buf)@.next(),
                name,
                password_elsewhere(),
                id32(members.team.id),
                members.logins(),
            )
            &&& final(group).shows(final(buf)@, name, password_elsewhere(), members.logins())
            &&& final(group).within(final(buf)@)
        },
        outcome is Err ==> final(buf)@ == old(buf)@ && *final(group) == *old(group),
{
    let members: &Roster = match roster {
        Some(members) => members,
        None => {
            return Err(Failure::Unavailable);
        },
    };
    if same_text(name, conf.team.as_str()) {
        answer_group(members, to_id32(members.team().id), group, buf)
    } else {
        Err(Failure::NotFound)
    }
}

/// Group records are not enumerated: beginning does nothing.
pub fn setgrent() -> (outcome: Outcome)
    ensures
        outcome == Ok::<(), Failure>(()),
{
    Ok(())
}

/// Group records are not enumerated: there is never a next one.
pub fn getgrent_r() -> (outcome: Outcome)
    ensures
        outcome == Err::<(), Failure>(Failure::Unavailable),
{
    Err(Failure::Unavailable)
}

/// Group records are not enumerated: ending does nothing.
pub fn endgrent() -> (outcome: Outcome)
    ensures
        outcome == Ok::<(), Failure>(()),
{
    Ok(())
}

} // verus!
