//! Enumeration sessions: a snapshot of the roster and a cursor into it.
//!
//! A session is kept between calls as two texts. The list holds one line
//! for each entry of the snapshot: the login name, a tab, the identifier in
//! decimal digits and a line feed. The index holds the cursor in decimal
//! digits.

use crate::buffer::Buffer;
use crate::cstructs::Passwd;
use crate::roster::{Config, Roster, RosterView};
use crate::status::{Failure, Outcome};
use crate::text::{
    decimal, find_byte, format_decimal, lemma_decimal, lemma_find_byte_finds, parse,
    parse_decimal, position_of,
};
use vstd::prelude::*;
use vstd::slice::slice_subrange;
use vstd::utf8::encode_utf8;

verus! {

/// The byte that parts the login name from the identifier.
pub const TAB: u8 = 0x09;

/// The byte that ends a line.
pub const LINE_FEED: u8 = 0x0a;

/// One entry of a snapshot: a login name, encoded, and an identifier.
#[derive(Clone, Debug, PartialEq, Eq)]
pub struct Entry {
    pub login: Vec<u8>,
    pub id: u64,
}

/// What an `Entry` stands for.
pub struct EntryView {
    pub login: Seq<u8>,
    pub id: u64,
}

impl View for Entry {
    type V = EntryView;

    open spec fn view(&self) -> EntryView {
        EntryView { login: self.login@, id: self.id }
    }
}

/// What the entries `entries` stand for, in their order.
pub open spec fn entry_views(entries: Seq<Entry>) -> Seq<EntryView> {
    Seq::new(entries.len(), |i: int| entries[i]@)
}

/// The snapshot that is taken of `roster`: one entry for each member, in
/// the order of the roster.
pub open spec fn snapshot_of(roster: RosterView) -> Seq<EntryView> {
    Seq::new(
        roster.members.len(),
        |i: int|
            EntryView { login: encode_utf8(roster.members[i].login@), id: roster.members[i].id },
    )
}

/// What a `Session` stands for: the snapshot, which never changes, and
/// the place of the entry that is handed out next.
pub struct SessionView {
    pub snapshot: Seq<EntryView>,
    pub cursor: u64,
}

impl SessionView {
    /// The session that begins on `roster`.
    pub open spec fn begin(roster: RosterView) -> SessionView {
        SessionView { snapshot: snapshot_of(roster), cursor: 0 }
    }

    /// The entry that is handed out next, if one is left.
    pub open spec fn current(self) -> Option<EntryView> {
        if self.cursor < self.snapshot.len() {
            Some(self.snapshot[self.cursor as int])
        } else {
            None
        }
    }

    /// The session after the current entry was handed out. Where none is
    /// left, the session stays as it is.
    pub open spec fn advance(self) -> SessionView {
        if self.cursor < self.snapshot.len() {
            SessionView { cursor: (self.cursor + 1) as u64, ..self }
        } else {
            self
        }
    }

    /// The session after `steps` entries were asked for, each with a
    /// buffer that could take it.
    pub open spec fn after(self, steps: nat) -> SessionView
        decreases steps,
    {
        if steps == 0 {
            self
        } else {
            self.after((steps - 1) as nat).advance()
        }
    }
}

/// One enumeration under way.
pub struct Session {
    entries: Vec<Entry>,
    cursor: u64,
}

impl View for Session {
    type V = SessionView;

    closed spec fn view(&self) -> SessionView {
        SessionView { snapshot: entry_views(self.entries@), cursor: self.cursor }
    }
}

/// Appends `data` to `out`.
fn append_bytes(out: &mut Vec<u8>, data: &[u8])
    ensures
        final(out)@ == old(out)@ + data@,
{
    let mut i: usize = 0;
    assert(out@ =~= old(out)@ + data@.take(0));
    while i < data.len()
        invariant
            i <= data@.len(),
            out@ == old(out)@ + data@.take(i as int),
        decreases data@.len() - i,
    {
        out.push(data[i]);
        assert(data@.take(i + 1) =~= data@.take(i as int).push(data@[i as int]));
        assert(out@ =~= old(out)@ + data@.take(i + 1));
        i = i + 1;
    }
    assert(data@.take(i as int) =~= data@);
}

/// A copy of `data`.
fn copy_bytes(data: &[u8]) -> (copy: Vec<u8>)
    ensures
        copy@ == data@,
{
    let mut copy: Vec<u8> = Vec::new();
    append_bytes(&mut copy, data);
    assert(Seq::<u8>::empty() + data@ =~= data@);
    copy
}

impl Session {
    /// Begins an enumeration: takes a snapshot of `roster` and puts the
    /// cursor on its first entry. What happens to the roster later does
    /// not reach the snapshot.
    pub fn begin(roster: &Roster) -> (session: Self)
        ensures
            session@ == SessionView::begin(roster@),
    {
        let members = roster.members();
        let mut entries: Vec<Entry> = Vec::new();
        let mut i: usize = 0;
        while i < members.len()
            invariant
                i <= members@.len(),
                members@ == roster@.members,
                entries@.len() == i,
                forall|k: int| 0 <= k < i ==> (#[trigger] entries@[k])@ == snapshot_of(roster@)[k],
            decreases members@.len() - i,
        {
            let login: Vec<u8> = copy_bytes(members[i].login.as_str().as_bytes());
            entries.push(Entry { login, id: members[i].id });
            i = i + 1;
        }
        let session = Session { entries, cursor: 0 };
        assert(session@.snapshot =~= snapshot_of(roster@));
        session
    }

    /// Hands out the next entry as a user record, packed as
    /// `Passwd::pack_login` packs it, and moves the cursor on. Where no
    /// entry is left, or the record does not fit, nothing changes: not the
    /// session, the record or the buffer.
    pub fn next(&mut self, conf: &Config, pw: &mut Passwd, buf: &mut Buffer) -> (outcome: Outcome)
        requires
            old(buf).wf(),
        ensures
            final(buf).wf(),
            match old(self)@.current() {
                None => {
                    &&& outcome == Err::<(), Failure>(Failure::Exhausted)
                    &&& final(self)@ == old(self)@
                    &&& final(buf)@ == old(buf)@
                    &&& *final(pw) == *old(pw)
                },
                Some(entry) => if old(buf)@.fits(
                    Passwd::user_bytes(entry.login, *conf).len() as int,
                ) {
                    &&& outcome == Ok::<(), Failure>(())
                    &&& final(self)@ == old(self)@.advance()
                    &&& final(buf)@ == old(buf)@.write(Passwd::user_bytes(entry.login, *conf))
                    &&& *final(pw) == Passwd::user(old(buf)@.next(), entry.login, entry.id, *conf)
                    &&& final(pw).shows_user(final(buf)@, entry.login, *conf)
                    &&& final(pw).within(final(buf)@)
                } else {
                    &&& outcome == Err::<(), Failure>(Failure::OutOfSpace)
                    &&& final(self)@ == old(self)@
                    &&& final(buf)@ == old(buf)@
                    &&& *final(pw) == *old(pw)
                },
            },
    {
        if self.cursor >= self.entries.len() as u64 {
            return Err(Failure::Exhausted);
        }
        let entry = &self.entries[self.cursor as usize];
        match pw.pack_login(buf, entry.login.as_slice(), entry.id, conf) {
            Ok(_) => {
                self.cursor = self.cursor + 1;
                Ok(())
            },
            Err(_) => Err(Failure::OutOfSpace),
        }
    }

    /// The number of entries of the snapshot.
    pub fn len(&self) -> (len: usize)
        ensures
            len == self@.snapshot.len(),
    {
        self.entries.len()
    }

    /// The place of the entry that is handed out next.
    pub fn cursor(&self) -> (cursor: u64)
        ensures
            cursor == self@.cursor,
    {
        self.cursor
    }

    /// The index text of the session: the cursor in decimal digits.
    pub fn index_text(&self) -> (text: Vec<u8>)
        ensures
            text@ == decimal(self@.cursor as nat),
    {
        format_decimal(self.cursor)
    }

    /// The list text of the session: one line for each entry of the
    /// snapshot.
    pub fn list_text(&self) -> (text: Vec<u8>)
        ensures
            text@ == list_of(self@.snapshot),
    {
        let ghost snapshot = self@.snapshot;
        let mut text: Vec<u8> = Vec::new();
        let mut i: usize = 0;
        proof {
            assert(snapshot.take(0) =~= Seq::<EntryView>::empty());
        }
        while i < self.entries.len()
            invariant
                i <= self.entries@.len(),
                snapshot == self@.snapshot,
                text@ == list_of(snapshot.take(i as int)),
            decreases self.entries@.len() - i,
        {
            let ghost before = text@;
            let entry = &self.entries[i];
            let digits: Vec<u8> = format_decimal(entry.id);
            append_bytes(&mut text, entry.login.as_slice());
            text.push(TAB);
            append_bytes(&mut text, digits.as_slice());
            text.push(LINE_FEED);
            proof {
                assert(snapshot[i as int] == entry@);
                lemma_list_grows(snapshot.take(i + 1));
                assert(snapshot.take(i + 1).drop_last() =~= snapshot.take(i as int));
                assert(text@ =~= before + line_of(entry@));
            }
            i = i + 1;
        }
        assert(snapshot.take(i as int) =~= snapshot);
        text
    }

    /// The session that the two texts stand for, if they stand for one:
    /// the list is lines that each hold a login name, a tab and a number,
    /// and the index is a number.
    pub fn restore(index: &[u8], list: &[u8]) -> (session: Option<Self>)
        ensures
            match session {
                Some(found) => read_session(index@, list@) == Some(found@),
                None => read_session(index@, list@) is None,
            },
    {
        let cursor: u64 = match parse_decimal(index) {
            Some(cursor) => cursor,
            None => {
                return None;
            },
        };
        let mut entries: Vec<Entry> = Vec::new();
        let mut at: usize = 0;
        proof {
            assert(list@.skip(0) =~= list@);
            assert(entry_views(entries@) =~= Seq::<EntryView>::empty());
            lemma_read_behind(entry_views(entries@), read_list(list@));
        }
        while at < list.len()
            invariant
                at <= list@.len(),
                read_list(list@) == read_behind(
                    entry_views(entries@),
                    read_list(list@.skip(at as int)),
                ),
            decreases list@.len() - at,
        {
            let rest = slice_subrange(list, at, list.len());
            assert(rest@ =~= list@.skip(at as int));
            let end: usize = match position_of(rest, LINE_FEED) {
                Some(end) => end,
                None => {
                    return None;
                },
            };
            let line = slice_subrange(rest, 0, end);
            assert(line@ =~= rest@.take(end as int));
            let tab: usize = match position_of(line, TAB) {
                Some(tab) => tab,
                None => {
                    return None;
                },
            };
            let id: u64 = match parse_decimal(slice_subrange(line, tab + 1, end)) {
                Some(id) => id,
                None => {
                    return None;
                },
            };
            let login: Vec<u8> = copy_bytes(slice_subrange(line, 0, tab));
            let ghost before = entry_views(entries@);
            let ghost entry = EntryView { login: login@, id };
            entries.push(Entry { login, id });
            proof {
                assert(line@.skip(tab + 1) =~= line@.subrange(tab + 1, end as int));
                assert(line@.take(tab as int) =~= line@.subrange(0, tab as int));
                assert(read_line(line@) == Some(entry));
                assert(rest@.skip(end + 1) =~= list@.skip(at + end + 1));
                assert(entry_views(entries@) =~= before.push(entry));
                let tail = read_list(list@.skip(at + end + 1));
                if tail is Some {
                    assert(before + (seq![entry] + tail->0) =~= before.push(entry) + tail->0);
                }
            }
            at = at + end + 1;
        }
        proof {
            assert(entry_views(entries@) + Seq::<EntryView>::empty() =~= entry_views(entries@));
        }
        Some(Session { entries, cursor })
    }
}

/// The line that stands for `entry`.
pub open spec fn line_of(entry: EntryView) -> Seq<u8> {
    entry.login + seq![TAB] + decimal(entry.id as nat) + seq![LINE_FEED]
}

/// The list text that stands for `snapshot`.
pub open spec fn list_of(snapshot: Seq<EntryView>) -> Seq<u8>
    decreases snapshot.len(),
{
    if snapshot.len() == 0 {
        Seq::empty()
    } else {
        line_of(snapshot[0]) + list_of(snapshot.skip(1))
    }
}

/// The entry that `line`, without its line feed, stands for: the login
/// name is what stands before the first tab, and what stands behind it is
/// the identifier.
pub open spec fn read_line(line: Seq<u8>) -> Option<EntryView> {
    match find_byte(line, TAB, 0) {
        None => None,
        Some(tab) => match parse(line.skip(tab + 1)) {
            None => None,
            Some(id) => Some(EntryView { login: line.take(tab), id }),
        },
    }
}

/// `front` before the entries `rest`, if there are any.
pub open spec fn read_behind(front: Seq<EntryView>, rest: Option<Seq<EntryView>>) -> Option<
    Seq<EntryView>,
> {
    match rest {
        Some(more) => Some(front + more),
        None => None,
    }
}

/// The snapshot that the list text `list` stands for: each line ends with
/// a line feed and stands for an entry.
pub open spec fn read_list(list: Seq<u8>) -> Option<Seq<EntryView>>
    decreases list.len(),
{
    if list.len() == 0 {
        Some(Seq::empty())
    } else {
        match find_byte(list, LINE_FEED, 0) {
            None => None,
            Some(end) => if 0 <= end < list.len() {
                match read_line(list.take(end)) {
                    None => None,
                    Some(entry) => read_behind(seq![entry], read_list(list.skip(end + 1))),
                }
            } else {
                None
            },
        }
    }
}

/// The session that the two texts stand for.
pub open spec fn read_session(index: Seq<u8>, list: Seq<u8>) -> Option<SessionView> {
    match (parse(index), read_list(list)) {
        (Some(cursor), Some(snapshot)) => Some(SessionView { snapshot, cursor }),
        _ => None,
    }
}

/// Nothing before the entries leaves them as they are.
proof fn lemma_read_behind(front: Seq<EntryView>, rest: Option<Seq<EntryView>>)
    requires
        front.len() == 0,
    ensures
        read_behind(front, rest) == rest,
{
    if rest is Some {
        assert(front + rest->0 =~= rest->0);
    }
}

/// The list text of a snapshot is that of all entries but the last, and
/// then the line of the last.
pub proof fn lemma_list_grows(snapshot: Seq<EntryView>)
    requires
        snapshot.len() > 0,
    ensures
        list_of(snapshot) == list_of(snapshot.drop_last()) + line_of(snapshot.last()),
    decreases snapshot.len(),
{
    if snapshot.len() == 1 {
        assert(snapshot.skip(1) =~= Seq::<EntryView>::empty());
        assert(snapshot.drop_last() =~= Seq::<EntryView>::empty());
        assert(list_of(snapshot.skip(1)) =~= Seq::<u8>::empty());
        assert(list_of(snapshot) =~= line_of(snapshot[0]));
        assert(list_of(snapshot.drop_last()) + line_of(snapshot.last()) =~= line_of(snapshot[0]));
    } else {
        let rest = snapshot.skip(1);
        lemma_list_grows(rest);
        assert(rest.drop_last() =~= snapshot.drop_last().skip(1));
        assert(rest.last() == snapshot.last());
        assert(snapshot.drop_last()[0] == snapshot[0]);
        assert(line_of(snapshot[0]) + (list_of(rest.drop_last()) + line_of(rest.last()))
            =~= (line_of(snapshot[0]) + list_of(rest.drop_last())) + line_of(rest.last()));
    }
}

/// Whether `login` can stand in a line: it holds neither a tab nor a line
/// feed.
pub open spec fn plain(login: Seq<u8>) -> bool {
    forall|k: int| 0 <= k < login.len() ==> login[k] != TAB && login[k] != LINE_FEED
}

/// Whether every login name of `snapshot` can stand in a line.
pub open spec fn all_plain(snapshot: Seq<EntryView>) -> bool {
    forall|i: int| 0 <= i < snapshot.len() ==> plain(#[trigger] snapshot[i].login)
}

/// The line of an entry is read back as the entry, and its line feed is
/// the first of whatever text the line begins.
proof fn lemma_line_is_read(entry: EntryView, rest: Seq<u8>)
    requires
        plain(entry.login),
    ensures
        find_byte(line_of(entry) + rest, LINE_FEED, 0) == Some(line_of(entry).len() - 1),
        read_line(line_of(entry).drop_last()) == Some(entry),
{
    let digits = decimal(entry.id as nat);
    let line = entry.login + seq![TAB] + digits;
    let tab = entry.login.len() as int;
    lemma_decimal(entry.id as nat);
    assert(line_of(entry).drop_last() =~= line);
    assert forall|k: int| 0 <= k < line.len() implies line[k] != LINE_FEED by {
        if k > tab {
            assert(line[k] == digits[k - tab - 1]);
            assert(crate::text::is_digit(digits[k - tab - 1]));
        }
    }
    lemma_find_byte_finds(line_of(entry) + rest, LINE_FEED, 0, line.len() as int);
    lemma_find_byte_finds(line, TAB, 0, tab);
    assert(line.skip(tab + 1) =~= digits);
    assert(line.take(tab) =~= entry.login);
    crate::text::lemma_parse_decimal(entry.id);
}

/// The list text of a snapshot is read back as the snapshot, unless a
/// login name holds a tab or a line feed.
pub proof fn lemma_list_is_read(snapshot: Seq<EntryView>)
    requires
        all_plain(snapshot),
    ensures
        read_list(list_of(snapshot)) == Some(snapshot),
    decreases snapshot.len(),
{
    if snapshot.len() > 0 {
        let first = snapshot[0];
        let rest = snapshot.skip(1);
        let list = list_of(snapshot);
        let end = line_of(first).len() - 1;
        assert(plain(first.login));
        assert forall|i: int| 0 <= i < rest.len() implies plain(#[trigger] rest[i].login) by {
            assert(rest[i] == snapshot[i + 1]);
        }
        lemma_line_is_read(first, list_of(rest));
        lemma_list_is_read(rest);
        assert(list.take(end) =~= line_of(first).drop_last());
        assert(list.skip(end + 1) =~= list_of(rest));
        assert(seq![first] + rest =~= snapshot);
    }
}

/// The two texts of a session are read back as the session, unless a
/// login name holds a tab or a line feed.
pub proof fn lemma_session_is_read(session: SessionView)
    requires
        all_plain(session.snapshot),
    ensures
        read_session(decimal(session.cursor as nat), list_of(session.snapshot)) == Some(session),
{
    crate::text::lemma_parse_decimal(session.cursor);
    lemma_list_is_read(session.snapshot);
}

/// An enumeration of a roster of `n` members hands out the `n` members as
/// they were when it began, in the order of the roster, one for each
/// request whose buffer can take the record, and after that no more,
/// however often it is asked.
pub proof fn lemma_enumeration(roster: RosterView, steps: nat)
    requires
        roster.members.len() <= u64::MAX,
    ensures
        SessionView::begin(roster).after(steps).snapshot == snapshot_of(roster),
        steps < roster.members.len() ==> {
            &&& SessionView::begin(roster).after(steps).cursor == steps
            &&& SessionView::begin(roster).after(steps).current() == Some(
                snapshot_of(roster)[steps as int],
            )
        },
        steps >= roster.members.len() ==> {
            &&& SessionView::begin(roster).after(steps).cursor == roster.members.len()
            &&& SessionView::begin(roster).after(steps).current() is None
        },
    decreases steps,
{
    if steps > 0 {
        lemma_enumeration(roster, (steps - 1) as nat);
    }
}

} // verus!
