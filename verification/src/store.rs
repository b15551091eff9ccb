//! The enumerations under way, one for each process that began one.

use crate::buffer::Buffer;
use crate::cstructs::Passwd;
use crate::cursor::{list_of, read_session, Session, SessionView};
use crate::roster::{Config, Roster};
use crate::status::{Failure, Outcome};
use crate::text::decimal;
use std::collections::HashMap;
use vstd::prelude::*;

verus! {

broadcast use vstd::std_specs::hash::group_hash_axioms;

/// The sessions of the processes that enumerate, by process id. The
/// session of one process is out of reach of every other.
pub struct CursorStore {
    sessions: HashMap<libc::pid_t, Session>,
}

impl View for CursorStore {
    type V = Map<libc::pid_t, SessionView>;

    closed spec fn view(&self) -> Map<libc::pid_t, SessionView> {
        self.sessions@.map_values(|session: Session| session@)
    }
}

impl CursorStore {
    /// A store without any session.
    pub fn new() -> (store: Self)
        ensures
            store@ == Map::<libc::pid_t, SessionView>::empty(),
    {
        let store = CursorStore { sessions: HashMap::new() };
        assert(store@ =~= Map::<libc::pid_t, SessionView>::empty());
        store
    }

    /// Whether the process `key` has a session.
    pub fn contains(&self, key: libc::pid_t) -> (present: bool)
        ensures
            present == self@.contains_key(key),
    {
        self.sessions.contains_key(&key)
    }

    /// Begins an enumeration for the process `key` on `roster`, in the
    /// place of the one that the process had, if it had one.
    pub fn begin(&mut self, key: libc::pid_t, roster: &Roster)
        ensures
            final(self)@ == old(self)@.insert(key, SessionView::begin(roster@)),
    {
        let session = Session::begin(roster);
        self.sessions.insert(key, session);
        assert(self@ =~= old(self)@.insert(key, SessionView::begin(roster@)));
    }

    /// Hands out the next entry of the session of the process `key`, as
    /// `Session::next` does. Where the process has no session, nothing
    /// changes. The sessions of other processes never change.
    pub fn next(
        &mut self,
        key: libc::pid_t,
        conf: &Config,
        pw: &mut Passwd,
        buf: &mut Buffer,
    ) -> (outcome: Outcome)
        requires
            old(buf).wf(),
        ensures
            final(buf).wf(),
            final(self)@.dom() == old(self)@.dom(),
            forall|other: libc::pid_t|
                other != key && old(self)@.contains_key(other) ==> final(self)@[other] == old(
                    self,
                )@[other],
            !old(self)@.contains_key(key) ==> {
                &&& outcome == Err::<(), Failure>(Failure::Unavailable)
                &&& final(buf)@ == old(buf)@
                &&& *final(pw) == *old(pw)
            },
            old(self)@.contains_key(key) ==> match old(self)@[key].current() {
                None => {
                    &&& outcome == Err::<(), Failure>(Failure::Exhausted)
                    &&& final(self)@[key] == old(self)@[key]
                    &&& final(buf)@ == old(buf)@
                    &&& *final(pw) == *old(pw)
                },
                Some(entry) => if old(buf)@.fits(
                    Passwd::user_bytes(entry.login, *conf).len() as int,
                ) {
                    &&& outcome == Ok::<(), Failure>(())
                    &&& final(self)@[key] == old(self)@[key].advance()
                    &&& final(buf)@ == old(buf)@.write(Passwd::user_bytes(entry.login, *conf))
                    &&& *final(pw) == Passwd::user(old(buf)@.next(), entry.login, entry.id, *conf)
                    &&& final(pw).shows_user(final(buf)@, entry.login, *conf)
                    &&& final(pw).within(final(buf)@)
                } else {
                    &&& outcome == Err::<(), Failure>(Failure::OutOfSpace)
                    &&& final(self)@[key] == old(self)@[key]
                    &&& final(buf)@ == old(buf)@
                    &&& *final(pw) == *old(pw)
                },
            },
    {
        let mut session: Session = match self.sessions.remove(&key) {
            Some(session) => session,
            None => {
                assert(self@ =~= old(self)@);
                return Err(Failure::Unavailable);
            },
        };
        let outcome = session.next(conf, pw, buf);
        self.sessions.insert(key, session);
        assert(self@.dom() =~= old(self)@.dom());
        outcome
    }

    /// Ends the enumeration of the process `key`, if it has one.
    pub fn end(&mut self, key: libc::pid_t)
        ensures
            final(self)@ == old(self)@.remove(key),
    {
        self.sessions.remove(&key);
        assert(self@ =~= old(self)@.remove(key));
    }

    /// Puts the session that the two texts stand for in the place of the
    /// session of the process `key`. Where the texts stand for none, the
    /// process is left without a session.
    pub fn load(&mut self, key: libc::pid_t, index: &[u8], list: &[u8]) -> (loaded: bool)
        ensures
            match read_session(index@, list@) {
                Some(session) => loaded && final(self)@ == old(self)@.insert(key, session),
                None => !loaded && final(self)@ == old(self)@.remove(key),
            },
    {
        match Session::restore(index, list) {
            Some(session) => {
                self.sessions.insert(key, session);
                assert(self@ =~= old(self)@.insert(key, read_session(index@, list@)->0));
                true
            },
            None => {
                self.sessions.remove(&key);
                assert(self@ =~= old(self)@.remove(key));
                false
            },
        }
    }

    /// The index text of the session of the process `key`.
    pub fn index_text(&self, key: libc::pid_t) -> (text: Option<Vec<u8>>)
        ensures
            match text {
                Some(bytes) => self@.contains_key(key) && bytes@ == decimal(
                    self@[key].cursor as nat,
                ),
                None => !self@.contains_key(key),
            },
    {
        match self.sessions.get(&key) {
            Some(session) => Some(session.index_text()),
            None => None,
        }
    }

    /// The list text of the session of the process `key`.
    pub fn list_text(&self, key: libc::pid_t) -> (text: Option<Vec<u8>>)
        ensures
            match text {
                Some(bytes) => self@.contains_key(key) && bytes@ == list_of(self@[key].snapshot),
                None => !self@.contains_key(key),
            },
    {
        match self.sessions.get(&key) {
            Some(session) => Some(session.list_text()),
            None => None,
        }
    }
}

} // verus!
