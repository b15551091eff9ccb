//! The team, its members and the policy that turns them into accounts.

use crate::text::{lemma_encoding_is_injective, same_text};
use vstd::prelude::*;
use vstd::utf8::encode_utf8;

verus! {

/// One entry of the directory: a numeric identifier and a login name.
#[derive(Clone, Debug, PartialEq, Eq)]
pub struct Member {
    pub id: u64,
    pub login: String,
}

/// The team whose members get accounts. It appears to the host as one
/// group.
#[derive(Clone, Debug, PartialEq, Eq)]
pub struct Team {
    pub id: u64,
    pub name: String,
}

/// The policy that every record follows.
#[derive(Clone, Debug, PartialEq, Eq)]
pub struct Config {
    /// The name of the configured team.
    pub team: String,
    /// The group that every member belongs to.
    pub gid: u64,
    /// The home directory, with `{}` where the login name goes.
    pub home: String,
    /// The login shell.
    pub sh: String,
}

/// The 32 bits of an identifier that the host keeps as a user or group id.
pub open spec fn id32(id: u64) -> u32 {
    (id % 0x1_0000_0000) as u32
}

/// The 32 bits of an identifier that the host keeps as a user or group id.
pub fn to_id32(id: u64) -> (short: u32)
    ensures
        short == id32(id),
{
    (id % 0x1_0000_0000) as u32
}

/// What a `Roster` stands for: the team and its members in a fixed order.
pub struct RosterView {
    pub team: Team,
    pub members: Seq<Member>,
}

impl RosterView {
    /// No two members have the same login name.
    pub open spec fn wf(self) -> bool {
        forall|i: int, j: int|
            0 <= i < j < self.members.len() ==> self.members[i].login@ != self.members[j].login@
    }

    /// Whether the member `i` is the first with the login name `login`.
    pub open spec fn first_with_login(self, login: Seq<char>, i: int) -> bool {
        &&& 0 <= i < self.members.len()
        &&& self.members[i].login@ == login
        &&& forall|j: int| 0 <= j < i ==> self.members[j].login@ != login
    }

    /// Whether the member `i` is the first whose identifier the host keeps
    /// as `uid`.
    pub open spec fn first_with_uid(self, uid: u32, i: int) -> bool {
        &&& 0 <= i < self.members.len()
        &&& id32(self.members[i].id) == uid
        &&& forall|j: int| 0 <= j < i ==> id32(self.members[j].id) != uid
    }

    /// Whether some member has the login name `login`, letter for letter.
    pub open spec fn has_login(self, login: Seq<char>) -> bool {
        exists|i: int| 0 <= i < self.members.len() && self.members[i].login@ == login
    }

    /// The member with the login name `login`.
    pub open spec fn by_login(self, login: Seq<char>) -> Option<Member> {
        if exists|i: int| self.first_with_login(login, i) {
            Some(self.members[choose|i: int| self.first_with_login(login, i)])
        } else {
            None
        }
    }

    /// The first member whose identifier the host keeps as `uid`.
    pub open spec fn by_uid(self, uid: u32) -> Option<Member> {
        if exists|i: int| self.first_with_uid(uid, i) {
            Some(self.members[choose|i: int| self.first_with_uid(uid, i)])
        } else {
            None
        }
    }

    /// The login names of all members, encoded, in the order of the roster.
    pub open spec fn logins(self) -> Seq<Seq<u8>> {
        Seq::new(self.members.len(), |i: int| encode_utf8(self.members[i].login@))
    }

    /// The roster after `member` was put in: in the place of the member
    /// with the same login name, or else behind all others.
    pub open spec fn insert(self, member: Member) -> RosterView {
        if exists|i: int| self.first_with_login(member.login@, i) {
            RosterView {
                members: self.members.update(
                    choose|i: int| self.first_with_login(member.login@, i),
                    member,
                ),
                ..self
            }
        } else {
            RosterView { members: self.members.push(member), ..self }
        }
    }
}

/// The current team and its members, as the directory gave them.
pub struct Roster {
    team: Team,
    members: Vec<Member>,
}

impl View for Roster {
    type V = RosterView;

    closed spec fn view(&self) -> RosterView {
        RosterView { team: self.team, members: self.members@ }
    }
}

impl Roster {
    /// The roster of `team` without any member.
    pub fn new(team: Team) -> (roster: Self)
        ensures
            roster@.wf(),
            roster@.team == team,
            roster@.members == Seq::<Member>::empty(),
    {
        Roster { team, members: Vec::new() }
    }

    /// The team.
    pub fn team(&self) -> (team: &Team)
        ensures
            *team == self@.team,
    {
        &self.team
    }

    /// The members, in the order of the roster.
    pub fn members(&self) -> (members: &Vec<Member>)
        ensures
            members@ == self@.members,
    {
        &self.members
    }

    /// The place of the member with the login name `login`.
    fn position(&self, login: &str) -> (place: Option<usize>)
        ensures
            match place {
                Some(i) => self@.first_with_login(login@, i as int),
                None => !self@.has_login(login@),
            },
    {
        let mut i: usize = 0;
        while i < self.members.len()
            invariant
                i <= self.members@.len(),
                forall|j: int| 0 <= j < i ==> self.members@[j].login@ != login@,
            decreases self.members@.len() - i,
        {
            if same_text(self.members[i].login.as_str(), login) {
                return Some(i);
            }
            i = i + 1;
        }
        None
    }

    /// Puts `member` in: in the place of the member with the same login
    /// name, or else behind all others.
    pub fn insert(&mut self, member: Member)
        requires
            old(self)@.wf(),
        ensures
            final(self)@.wf(),
            final(self)@ == old(self)@.insert(member),
    {
        let ghost before = self@;
        match self.position(member.login.as_str()) {
            Some(i) => {
                proof {
                    let chosen = choose|k: int| before.first_with_login(member.login@, k);
                    assert(before.first_with_login(member.login@, i as int));
                    assert(chosen == i);
                }
                self.members[i] = member;
                assert forall|a: int, b: int|
                    0 <= a < b < self@.members.len() implies self@.members[a].login@
                    != self@.members[b].login@ by {
                    assert(before.members[a].login@ != before.members[b].login@);
                }
            },
            None => {
                assert(forall|k: int| !before.first_with_login(member.login@, k));
                self.members.push(member);
                assert forall|a: int, b: int|
                    0 <= a < b < self@.members.len() implies self@.members[a].login@
                    != self@.members[b].login@ by {
                    if b < before.members.len() {
                        assert(before.members[a].login@ != before.members[b].login@);
                    } else {
                        assert(before.members[a].login@ != member.login@);
                    }
                }
            },
        }
    }

    /// The member with the login name `login`, letter for letter.
    pub fn find(&self, login: &str) -> (found: Option<&Member>)
        ensures
            match found {
                Some(member) => self@.by_login(login@) == Some(*member),
                None => self@.by_login(login@) is None,
            },
    {
        match self.position(login) {
            Some(i) => {
                proof {
                    let chosen = choose|k: int| self@.first_with_login(login@, k);
                    assert(self@.first_with_login(login@, i as int));
                    assert(chosen == i);
                }
                Some(&self.members[i])
            },
            None => {
                assert(forall|k: int| !self@.first_with_login(login@, k));
                None
            },
        }
    }

    /// The first member whose identifier the host keeps as `uid`.
    pub fn find_uid(&self, uid: u32) -> (found: Option<&Member>)
        ensures
            match found {
                Some(member) => self@.by_uid(uid) == Some(*member),
                None => self@.by_uid(uid) is None,
            },
    {
        let mut i: usize = 0;
        while i < self.members.len()
            invariant
                i <= self.members@.len(),
                forall|j: int| 0 <= j < i ==> id32(self.members@[j].id) != uid,
            decreases self.members@.len() - i,
        {
            if to_id32(self.members[i].id) == uid {
                proof {
                    let chosen = choose|k: int| self@.first_with_uid(uid, k);
                    assert(self@.first_with_uid(uid, i as int));
                    assert(chosen == i);
                }
                return Some(&self.members[i]);
            }
            i = i + 1;
        }
        assert(forall|k: int| !self@.first_with_uid(uid, k));
        None
    }

    /// Whether some member has the login name `login`, letter for letter.
    pub fn contains(&self, login: &str) -> (present: bool)
        ensures
            present == self@.has_login(login@),
    {
        match self.position(login) {
            Some(i) => {
                assert(self@.members[i as int].login@ == login@);
                true
            },
            None => false,
        }
    }

    /// The login names of all members, in the order of the roster.
    pub fn login_list(&self) -> (logins: Vec<&str>)
        ensures
            logins@.len() == self@.members.len(),
            forall|i: int|
                0 <= i < logins@.len() ==> (#[trigger] logins@[i])@ == self@.members[i].login@,
    {
        let mut logins: Vec<&str> = Vec::new();
        let mut i: usize = 0;
        while i < self.members.len()
            invariant
                i <= self.members@.len(),
                logins@.len() == i,
                forall|k: int| 0 <= k < i ==> (#[trigger] logins@[k])@ == self.members@[k].login@,
            decreases self.members@.len() - i,
        {
            logins.push(self.members[i].login.as_str());
            i = i + 1;
        }
        logins
    }
}

/// A roster names each login once: no login name stands twice in the list
/// of its logins, and every member's login stands in it.
pub proof fn lemma_logins_are_the_members(roster: RosterView)
    requires
        roster.wf(),
    ensures
        roster.logins().no_duplicates(),
        roster.logins().len() == roster.members.len(),
        forall|i: int|
            0 <= i < roster.members.len() ==> roster.logins()[i] == encode_utf8(
                #[trigger] roster.members[i].login@,
            ),
{
    let logins = roster.logins();
    assert forall|i: int, j: int|
        0 <= i < logins.len() && 0 <= j < logins.len() && i != j implies logins[i]
        != logins[j] by {
        lemma_encoding_is_injective(roster.members[i].login@, roster.members[j].login@);
        if i < j {
            assert(roster.members[i].login@ != roster.members[j].login@);
        } else {
            assert(roster.members[j].login@ != roster.members[i].login@);
        }
    }
}

} // verus!
