//! What holds of the requests taken together.

use crate::memory::{all_zero_free, lemma_held_array_is_read, BufferView};
use crate::cstructs::{Group, Passwd, Spwd};
use crate::cursor::{snapshot_of, SessionView};
use crate::nss::{
    getpwent_outcome, getpwnam_outcome, getpwuid_outcome, getspnam_outcome, group_len,
    group_outcome, session_of, shadow_len, user_len,
};
use crate::roster::{id32, lemma_logins_are_the_members, Config, Member, RosterView};
use crate::status::Failure;
use vstd::prelude::*;
use vstd::utf8::encode_utf8;

verus! {

/// The number of bytes of the largest user record of `members`.
pub open spec fn largest_user_len(members: Seq<Member>, conf: Config) -> int
    decreases members.len(),
{
    if members.len() == 0 {
        0
    } else {
        let before = largest_user_len(members.drop_last(), conf);
        if user_len(members.last(), conf) > before {
            user_len(members.last(), conf)
        } else {
            before
        }
    }
}

/// The number of bytes of the largest shadow record of `members`.
pub open spec fn largest_shadow_len(members: Seq<Member>) -> int
    decreases members.len(),
{
    if members.len() == 0 {
        0
    } else {
        let before = largest_shadow_len(members.drop_last());
        if shadow_len(members.last()) > before {
            shadow_len(members.last())
        } else {
            before
        }
    }
}

/// No user record of `members` is larger than the largest.
pub proof fn lemma_largest_user_len(members: Seq<Member>, conf: Config, i: int)
    requires
        0 <= i < members.len(),
    ensures
        user_len(members[i], conf) <= largest_user_len(members, conf),
    decreases members.len(),
{
    if i < members.len() - 1 {
        lemma_largest_user_len(members.drop_last(), conf, i);
    }
}

/// No shadow record of `members` is larger than the largest.
pub proof fn lemma_largest_shadow_len(members: Seq<Member>, i: int)
    requires
        0 <= i < members.len(),
    ensures
        shadow_len(members[i]) <= largest_shadow_len(members),
    decreases members.len(),
{
    if i < members.len() - 1 {
        lemma_largest_shadow_len(members.drop_last(), i);
    }
}

/// Where some member up to `i` has the user id `uid`, there is a first
/// such member.
proof fn lemma_first_with_uid(roster: RosterView, uid: u32, i: int)
    requires
        0 <= i < roster.members.len(),
        id32(roster.members[i].id) == uid,
    ensures
        exists|k: int| roster.first_with_uid(uid, k),
    decreases i,
{
    if exists|j: int| 0 <= j < i && id32(roster.members[j].id) == uid {
        let j = choose|j: int| 0 <= j < i && id32(roster.members[j].id) == uid;
        lemma_first_with_uid(roster, uid, j);
    } else {
        assert(roster.first_with_uid(uid, i));
    }
}

/// A buffer with room for the largest user record of the roster serves
/// every lookup of a user that the roster has, by login name and by user
/// id, and every request of an enumeration of the roster that is not yet
/// exhausted.
pub proof fn lemma_room_for_the_largest_user(
    roster: RosterView,
    conf: Config,
    buffer: BufferView,
    i: int,
    session: SessionView,
)
    requires
        roster.wf(),
        0 <= i < roster.members.len(),
        buffer.remaining() == largest_user_len(roster.members, conf),
        session.snapshot == snapshot_of(roster),
    ensures
        getpwnam_outcome(Some(roster), conf, roster.members[i].login@, buffer) == Ok::<
            (),
            Failure,
        >(()),
        getpwuid_outcome(Some(roster), conf, id32(roster.members[i].id), buffer) == Ok::<
            (),
            Failure,
        >(()),
        session.current() is Some ==> getpwent_outcome(Some(session), conf, buffer) == Ok::<
            (),
            Failure,
        >(()),
{
    let member = roster.members[i];
    assert(roster.first_with_login(member.login@, i));
    let named = choose|k: int| roster.first_with_login(member.login@, k);
    lemma_largest_user_len(roster.members, conf, named);
    lemma_first_with_uid(roster, id32(member.id), i);
    let numbered = choose|k: int| roster.first_with_uid(id32(member.id), k);
    lemma_largest_user_len(roster.members, conf, numbered);
    if session.current() is Some {
        lemma_largest_user_len(roster.members, conf, session.cursor as int);
    }
}

/// A buffer with room for the largest shadow record of the roster serves
/// every lookup of a shadow record that the roster has.
pub proof fn lemma_room_for_the_largest_shadow(roster: RosterView, buffer: BufferView, i: int)
    requires
        roster.wf(),
        0 <= i < roster.members.len(),
        buffer.remaining() == largest_shadow_len(roster.members),
    ensures
        getspnam_outcome(Some(roster), roster.members[i].login@, buffer) == Ok::<(), Failure>(()),
{
    let member = roster.members[i];
    assert(roster.first_with_login(member.login@, i));
    let named = choose|k: int| roster.first_with_login(member.login@, k);
    lemma_largest_shadow_len(roster.members, named);
}

/// A buffer with room for the group record serves the lookup of the
/// group, by group id and by name.
pub proof fn lemma_room_for_the_group(roster: RosterView, buffer: BufferView)
    requires
        buffer.remaining() == group_len(roster, buffer),
    ensures
        group_outcome(Some(roster), true, buffer) == Ok::<(), Failure>(()),
{
}

/// A buffer that is one byte too small for the record gives no record: a
/// lookup or an enumeration that would have packed one reports that the
/// record does not fit.
pub proof fn lemma_one_byte_short(
    roster: RosterView,
    conf: Config,
    buffer: BufferView,
    name: Seq<char>,
    uid: u32,
    session: SessionView,
)
    ensures
        roster.by_login(name) matches Some(member) && buffer.remaining() == user_len(member, conf)
            - 1 ==> getpwnam_outcome(Some(roster), conf, name, buffer) == Err::<(), Failure>(
            Failure::OutOfSpace,
        ),
        roster.by_uid(uid) matches Some(member) && buffer.remaining() == user_len(member, conf)
            - 1 ==> getpwuid_outcome(Some(roster), conf, uid, buffer) == Err::<(), Failure>(
            Failure::OutOfSpace,
        ),
        session.current() matches Some(entry) && buffer.remaining() == Passwd::user_bytes(
            entry.login,
            conf,
        ).len() - 1 ==> getpwent_outcome(Some(session), conf, buffer) == Err::<(), Failure>(
            Failure::OutOfSpace,
        ),
        roster.by_login(name) matches Some(member) && buffer.remaining() == shadow_len(member)
            - 1 ==> getspnam_outcome(Some(roster), name, buffer) == Err::<(), Failure>(
            Failure::OutOfSpace,
        ),
        buffer.remaining() == group_len(roster, buffer) - 1 ==> group_outcome(
            Some(roster),
            true,
            buffer,
        ) == Err::<(), Failure>(Failure::OutOfSpace),
{
}

/// The addresses of a user record that lies within a buffer are addresses
/// of the caller's region.
pub proof fn lemma_user_record_in_region(record: Passwd, buffer: BufferView)
    requires
        buffer.wf(),
        record.within(buffer),
    ensures
        buffer.base <= record.name < buffer.base + buffer.capacity,
        buffer.base <= record.passwd < buffer.base + buffer.capacity,
        buffer.base <= record.gecos < buffer.base + buffer.capacity,
        buffer.base <= record.dir < buffer.base + buffer.capacity,
        buffer.base <= record.shell < buffer.base + buffer.capacity,
{
}

/// The addresses of a shadow record that lies within a buffer are
/// addresses of the caller's region.
pub proof fn lemma_shadow_record_in_region(record: Spwd, buffer: BufferView)
    requires
        buffer.wf(),
        record.within(buffer),
    ensures
        buffer.base <= record.namp < buffer.base + buffer.capacity,
        buffer.base <= record.pwdp < buffer.base + buffer.capacity,
{
}

/// The addresses of a group record that lies within a buffer are
/// addresses of the caller's region, and so are the addresses in its
/// array of members.
pub proof fn lemma_group_record_in_region(
    record: Group,
    buffer: BufferView,
    name: Seq<u8>,
    passwd: Seq<u8>,
    members: Seq<Seq<u8>>,
    i: int,
)
    requires
        buffer.wf(),
        record.within(buffer),
        record.shows(buffer, name, passwd, members),
        0 <= i < members.len(),
    ensures
        buffer.base <= record.name < buffer.base + buffer.capacity,
        buffer.base <= record.passwd < buffer.base + buffer.capacity,
        buffer.base <= record.mem < buffer.base + buffer.capacity,
        buffer.word_at(crate::layout::slot(record.mem as int, i)) matches Some(pointer)
            && buffer.base <= pointer < buffer.base + buffer.capacity,
{
    assert(buffer.holds_pointer_to(crate::layout::slot(record.mem as int, i), members[i]));
}

/// The members of the group record are the roster: the host reads as many
/// names as the roster has members, the name `i` is the login name of the
/// member `i`, and no name comes twice. (A login name that holds a zero
/// byte is read only up to that byte, so the law leaves such names out.)
pub proof fn lemma_group_members_are_the_roster(
    roster: RosterView,
    record: Group,
    buffer: BufferView,
    name: Seq<u8>,
    passwd: Seq<u8>,
)
    requires
        roster.wf(),
        record.shows(buffer, name, passwd, roster.logins()),
        all_zero_free(roster.logins()),
    ensures
        buffer.strings_at(record.mem as int) == Some(roster.logins()),
        roster.logins().len() == roster.members.len(),
        roster.logins().no_duplicates(),
        forall|i: int|
            0 <= i < roster.members.len() ==> roster.logins()[i] == encode_utf8(
                #[trigger] roster.members[i].login@,
            ),
{
    lemma_held_array_is_read(buffer, record.mem as int, roster.logins());
    lemma_logins_are_the_members(roster);
}

/// Ending an enumeration twice is ending it once, and ending one that was
/// never begun changes nothing.
pub proof fn lemma_end_is_idempotent(store: Map<libc::pid_t, SessionView>, pid: libc::pid_t)
    ensures
        store.remove(pid).remove(pid) == store.remove(pid),
        !store.contains_key(pid) ==> store.remove(pid) == store,
        session_of(store.remove(pid), pid) is None,
{
    assert(store.remove(pid).remove(pid) =~= store.remove(pid));
    if !store.contains_key(pid) {
        assert(store.remove(pid) =~= store);
    }
}

/// What one process does to its enumeration does not reach that of
/// another: beginning, moving on and ending leave every other session as
/// it was.
pub proof fn lemma_processes_are_isolated(
    store: Map<libc::pid_t, SessionView>,
    pid: libc::pid_t,
    other: libc::pid_t,
    session: SessionView,
)
    requires
        pid != other,
    ensures
        session_of(store.insert(pid, session), other) == session_of(store, other),
        session_of(store.remove(pid), other) == session_of(store, other),
{
}

/// An enumeration follows the roster as it was when the enumeration
/// began. After the process `pid` began on `roster`, and even where
/// another process has since begun on the roster `later` that the
/// directory has by then, the request number `steps` of `pid` finds the
/// entry `steps` of `roster`; the requests behind the last entry find the
/// enumeration exhausted, and they leave it so.
pub proof fn lemma_enumeration_keeps_its_snapshot(
    store: Map<libc::pid_t, SessionView>,
    pid: libc::pid_t,
    roster: RosterView,
    other: libc::pid_t,
    later: RosterView,
    steps: nat,
)
    requires
        roster.members.len() <= u64::MAX,
        pid != other,
    ensures
        ({
            let begun = store.insert(pid, SessionView::begin(roster));
            let changed = begun.insert(other, SessionView::begin(later));
            let session = changed[pid].after(steps);
            &&& session.snapshot == snapshot_of(roster)
            &&& steps < roster.members.len() ==> session.current() == Some(
                snapshot_of(roster)[steps as int],
            )
            &&& steps >= roster.members.len() ==> session.current() is None && session.advance()
                == session
        }),
{
    crate::cursor::lemma_enumeration(roster, steps);
}

} // verus!
