//! The records that the host reads: user, shadow and group.
//!
//! A record holds numbers and addresses. Each address is that of a string,
//! or of an array of strings, in the buffer that the record was packed
//! into, and is good for as long as that buffer is.

use crate::buffer::{encodings, Buffer, OutOfSpace};
use crate::memory::{
    lemma_array_holds_word, lemma_array_is_aligned, lemma_extends_keeps_string,
    lemma_write_extends, lemma_written_array, lemma_written_string, BufferView,
};
use crate::layout::{lemma_string_array_len, slot, string_array, table_address, word_size};
use crate::roster::{id32, to_id32, Config};
use crate::text::{c_string, expand, expand_home};
use vstd::prelude::*;
use vstd::string::StringSliceAdditionalSpecFns;
use vstd::utf8::encode_utf8;

verus! {

/// The password field of a user and of a group: the letter `x`, which
/// says that the password is kept elsewhere.
pub open spec fn password_elsewhere() -> Seq<u8> {
    seq![0x78u8]
}

/// The password field of a shadow record: `!!`, no password.
pub open spec fn password_none() -> Seq<u8> {
    seq![0x21u8, 0x21u8]
}

/// The value of an aging field that is not set.
pub const UNSET: libc::c_long = -1;

/// Writes `text` with its terminating zero byte. Where it does not fit,
/// gives back all that was written after `mark` bytes.
fn write_or_rewind(
    buf: &mut Buffer,
    mark: usize,
    text: &[u8],
) -> (written: Result<usize, OutOfSpace>)
    requires
        old(buf).wf(),
        mark <= old(buf)@.contents.len(),
    ensures
        final(buf).wf(),
        final(buf)@.base == old(buf)@.base,
        final(buf)@.capacity == old(buf)@.capacity,
        match written {
            Ok(addr) => {
                &&& old(buf)@.fits(text@.len() as int + 1)
                &&& addr == old(buf)@.next()
                &&& final(buf)@.contents == old(buf)@.contents + c_string(text@)
            },
            Err(_) => {
                &&& !old(buf)@.fits(text@.len() as int + 1)
                &&& final(buf)@.contents == old(buf)@.contents.take(mark as int)
            },
        },
{
    match buf.write_c_string(text) {
        Ok(addr) => Ok(addr),
        Err(e) => {
            buf.rewind(mark);
            Err(e)
        },
    }
}

/// A user record.
#[derive(Clone, Copy, Debug, PartialEq, Eq)]
pub struct Passwd {
    /// The address of the login name.
    pub name: usize,
    /// The address of the password field.
    pub passwd: usize,
    pub uid: libc::uid_t,
    pub gid: libc::gid_t,
    /// The address of the comment field.
    pub gecos: usize,
    /// The address of the home directory.
    pub dir: usize,
    /// The address of the login shell.
    pub shell: usize,
}

impl Passwd {
    /// The bytes that the strings of a user record take in the buffer.
    pub open spec fn bytes(
        name: Seq<u8>,
        passwd: Seq<u8>,
        gecos: Seq<u8>,
        dir: Seq<u8>,
        shell: Seq<u8>,
    ) -> Seq<u8> {
        c_string(name) + c_string(passwd) + c_string(dir) + c_string(shell) + c_string(gecos)
    }

    /// The record whose strings were written from the address `start` on.
    pub open spec fn laid_out(
        start: int,
        name: Seq<u8>,
        passwd: Seq<u8>,
        uid: u32,
        gid: u32,
        dir: Seq<u8>,
        shell: Seq<u8>,
    ) -> Passwd {
        let passwd_at = start + name.len() + 1;
        let dir_at = passwd_at + passwd.len() + 1;
        let shell_at = dir_at + dir.len() + 1;
        let gecos_at = shell_at + shell.len() + 1;
        Passwd {
            name: start as usize,
            passwd: passwd_at as usize,
            uid,
            gid,
            gecos: gecos_at as usize,
            dir: dir_at as usize,
            shell: shell_at as usize,
        }
    }

    /// Whether each address of the record is that of the string named,
    /// written in `buffer` with its terminating zero byte.
    pub open spec fn shows(
        self,
        buffer: BufferView,
        name: Seq<u8>,
        passwd: Seq<u8>,
        gecos: Seq<u8>,
        dir: Seq<u8>,
        shell: Seq<u8>,
    ) -> bool {
        &&& buffer.holds(self.name as int, name)
        &&& buffer.holds(self.passwd as int, passwd)
        &&& buffer.holds(self.gecos as int, gecos)
        &&& buffer.holds(self.dir as int, dir)
        &&& buffer.holds(self.shell as int, shell)
    }

    /// Whether every address of the record is that of a byte written in
    /// `buffer`.
    pub open spec fn within(self, buffer: BufferView) -> bool {
        &&& buffer.written(self.name as int)
        &&& buffer.written(self.passwd as int)
        &&& buffer.written(self.gecos as int)
        &&& buffer.written(self.dir as int)
        &&& buffer.written(self.shell as int)
    }

    /// The home directory that `conf` gives to the login name `login`.
    pub open spec fn home(login: Seq<u8>, conf: Config) -> Seq<u8> {
        expand(encode_utf8(conf.home@), login)
    }

    /// The bytes that the user record of `login` takes in the buffer.
    pub open spec fn user_bytes(login: Seq<u8>, conf: Config) -> Seq<u8> {
        Self::bytes(
            login,
            password_elsewhere(),
            Seq::empty(),
            Self::home(login, conf),
            encode_utf8(conf.sh@),
        )
    }

    /// The user record of the member `login` with the identifier `id`,
    /// its strings written from the address `start` on.
    pub open spec fn user(start: int, login: Seq<u8>, id: u64, conf: Config) -> Passwd {
        Self::laid_out(
            start,
            login,
            password_elsewhere(),
            id32(id),
            id32(conf.gid),
            Self::home(login, conf),
            encode_utf8(conf.sh@),
        )
    }

    /// Whether the record is the user record of `login` in `buffer`: the
    /// password field is `x`, the comment is empty, the home directory is
    /// the template of `conf` with the login name put in, and the shell is
    /// that of `conf`.
    pub open spec fn shows_user(self, buffer: BufferView, login: Seq<u8>, conf: Config) -> bool {
        self.shows(
            buffer,
            login,
            password_elsewhere(),
            Seq::empty(),
            Self::home(login, conf),
            encode_utf8(conf.sh@),
        )
    }

    /// A record whose addresses are all null.
    pub fn empty() -> (record: Self)
        ensures
            record == (Passwd { name: 0, passwd: 0, uid: 0, gid: 0, gecos: 0, dir: 0, shell: 0 }),
    {
        Passwd { name: 0, passwd: 0, uid: 0, gid: 0, gecos: 0, dir: 0, shell: 0 }
    }

    /// Writes the strings to `buf`, in the order name, password, home
    /// directory, shell, comment, and fills the record with their addresses
    /// and the two numbers. Where the strings do not all fit, neither the
    /// record nor the buffer changes.
    pub fn pack(
        &mut self,
        buf: &mut Buffer,
        name: &[u8],
        passwd: &[u8],
        uid: libc::uid_t,
        gid: libc::gid_t,
        gecos: &[u8],
        dir: &[u8],
        shell: &[u8],
    ) -> (packed: Result<(), OutOfSpace>)
        requires
            old(buf).wf(),
        ensures
            final(buf).wf(),
            match packed {
                Ok(_) => {
                    &&& old(buf)@.fits(
                        Self::bytes(name@, passwd@, gecos@, dir@, shell@).len() as int,
                    )
                    &&& final(buf)@ == old(buf)@.write(
                        Self::bytes(name@, passwd@, gecos@, dir@, shell@),
                    )
                    &&& *final(self) == Self::laid_out(
                        old(buf)@.next(),
                        name@,
                        passwd@,
                        uid,
                        gid,
                        dir@,
                        shell@,
                    )
                    &&& final(self).shows(final(buf)@, name@, passwd@, gecos@, dir@, shell@)
                    &&& final(self).within(final(buf)@)
                },
                Err(_) => {
                    &&& !old(buf)@.fits(
                        Self::bytes(name@, passwd@, gecos@, dir@, shell@).len() as int,
                    )
                    &&& final(buf)@ == old(buf)@
                    &&& *final(self) == *old(self)
                },
            },
    {
        let mark: usize = buf.used();
        let ghost before = buf@;
        let name_at: usize = match write_or_rewind(buf, mark, name) {
            Ok(addr) => addr,
            Err(e) => {
                assert(buf@.contents =~= before.contents);
                return Err(e);
            },
        };
        let ghost with_name = buf@;
        let passwd_at: usize = match write_or_rewind(buf, mark, passwd) {
            Ok(addr) => addr,
            Err(e) => {
                assert(buf@.contents =~= before.contents);
                return Err(e);
            },
        };
        let ghost with_passwd = buf@;
        let dir_at: usize = match write_or_rewind(buf, mark, dir) {
            Ok(addr) => addr,
            Err(e) => {
                assert(buf@.contents =~= before.contents);
                return Err(e);
            },
        };
        let ghost with_dir = buf@;
        let shell_at: usize = match write_or_rewind(buf, mark, shell) {
            Ok(addr) => addr,
            Err(e) => {
                assert(buf@.contents =~= before.contents);
                return Err(e);
            },
        };
        let ghost with_shell = buf@;
        let gecos_at: usize = match write_or_rewind(buf, mark, gecos) {
            Ok(addr) => addr,
            Err(e) => {
                assert(buf@.contents =~= before.contents);
                return Err(e);
            },
        };
        self.name = name_at;
        self.passwd = passwd_at;
        self.dir = dir_at;
        self.shell = shell_at;
        self.gecos = gecos_at;
        self.uid = uid;
        self.gid = gid;
        proof {
            assert(buf@.contents =~= before.contents + Self::bytes(
                name@,
                passwd@,
                gecos@,
                dir@,
                shell@,
            ));
            assert(with_name == before.write(c_string(name@)));
            assert(with_passwd == with_name.write(c_string(passwd@)));
            assert(with_dir == with_passwd.write(c_string(dir@)));
            assert(with_shell == with_dir.write(c_string(shell@)));
            assert(buf@ == with_shell.write(c_string(gecos@)));
            lemma_written_string(before, name@);
            lemma_written_string(with_name, passwd@);
            lemma_written_string(with_passwd, dir@);
            lemma_written_string(with_dir, shell@);
            lemma_written_string(with_shell, gecos@);
            lemma_write_extends(with_name, c_string(passwd@));
            lemma_write_extends(with_passwd, c_string(dir@));
            lemma_write_extends(with_dir, c_string(shell@));
            lemma_write_extends(with_shell, c_string(gecos@));
            lemma_extends_keeps_string(with_passwd, with_name, name_at as int, name@);
            lemma_extends_keeps_string(with_dir, with_passwd, name_at as int, name@);
            lemma_extends_keeps_string(with_shell, with_dir, name_at as int, name@);
            lemma_extends_keeps_string(buf@, with_shell, name_at as int, name@);
            lemma_extends_keeps_string(with_dir, with_passwd, passwd_at as int, passwd@);
            lemma_extends_keeps_string(with_shell, with_dir, passwd_at as int, passwd@);
            lemma_extends_keeps_string(buf@, with_shell, passwd_at as int, passwd@);
            lemma_extends_keeps_string(with_shell, with_dir, dir_at as int, dir@);
            lemma_extends_keeps_string(buf@, with_shell, dir_at as int, dir@);
            lemma_extends_keeps_string(buf@, with_shell, shell_at as int, shell@);
        }
        Ok(())
    }

    /// Packs the user record of the member with the login name `login`
    /// (encoded) and the identifier `id`: the password field is `x`, the
    /// user id is `id`, the group id is that of `conf`, the comment is
    /// empty, the home directory is the template of `conf` with the login
    /// name put in, and the shell is that of `conf`. Where the strings do
    /// not all fit, neither the record nor the buffer changes.
    pub fn pack_login(
        &mut self,
        buf: &mut Buffer,
        login: &[u8],
        id: u64,
        conf: &Config,
    ) -> (packed: Result<(), OutOfSpace>)
        requires
            old(buf).wf(),
        ensures
            final(buf).wf(),
            match packed {
                Ok(_) => {
                    &&& old(buf)@.fits(Self::user_bytes(login@, *conf).len() as int)
                    &&& final(buf)@ == old(buf)@.write(Self::user_bytes(login@, *conf))
                    &&& *final(self) == Self::user(old(buf)@.next(), login@, id, *conf)
                    &&& final(self).shows_user(final(buf)@, login@, *conf)
                    &&& final(self).within(final(buf)@)
                },
                Err(_) => {
                    &&& !old(buf)@.fits(Self::user_bytes(login@, *conf).len() as int)
                    &&& final(buf)@ == old(buf)@
                    &&& *final(self) == *old(self)
                },
            },
    {
        let home: Vec<u8> = expand_home(conf.home.as_str().as_bytes(), login);
        let elsewhere: [u8; 1] = [0x78];
        let nothing: [u8; 0] = [];
        assert(elsewhere@ =~= password_elsewhere());
        assert(nothing@ =~= Seq::<u8>::empty());
        self.pack(
            buf,
            login,
            elsewhere.as_slice(),
            to_id32(id),
            to_id32(conf.gid),
            nothing.as_slice(),
            home.as_slice(),
            conf.sh.as_str().as_bytes(),
        )
    }

    /// Packs the user record of the member with the login name `name` and
    /// the identifier `id`, as `pack_login` does.
    pub fn pack_args(
        &mut self,
        buf: &mut Buffer,
        name: &str,
        id: u64,
        conf: &Config,
    ) -> (packed: Result<(), OutOfSpace>)
        requires
            old(buf).wf(),
        ensures
            final(buf).wf(),
            match packed {
                Ok(_) => {
                    &&& old(buf)@.fits(Self::user_bytes(name.spec_bytes(), *conf).len() as int)
                    &&& final(buf)@ == old(buf)@.write(Self::user_bytes(name.spec_bytes(), *conf))
                    &&& *final(self) == Self::user(old(buf)@.next(), name.spec_bytes(), id, *conf)
                    &&& final(self).shows_user(final(buf)@, name.spec_bytes(), *conf)
                    &&& final(self).within(final(buf)@)
                },
                Err(_) => {
                    &&& !old(buf)@.fits(Self::user_bytes(name.spec_bytes(), *conf).len() as int)
                    &&& final(buf)@ == old(buf)@
                    &&& *final(self) == *old(self)
                },
            },
    {
        self.pack_login(buf, name.as_bytes(), id, conf)
    }
}

/// A shadow record.
#[derive(Clone, Copy, Debug, PartialEq, Eq)]
pub struct Spwd {
    /// The address of the login name.
    pub namp: usize,
    /// The address of the password field.
    pub pwdp: usize,
    pub lstchg: libc::c_long,
    pub min: libc::c_long,
    pub max: libc::c_long,
    pub warn: libc::c_long,
    pub inact: libc::c_long,
    pub expire: libc::c_long,
    pub flag: libc::c_ulong,
}

impl Spwd {
    /// The bytes that the strings of a shadow record take in the buffer.
    pub open spec fn bytes(namp: Seq<u8>, pwdp: Seq<u8>) -> Seq<u8> {
        c_string(namp) + c_string(pwdp)
    }

    /// Whether each address of the record is that of the string named,
    /// written in `buffer` with its terminating zero byte.
    pub open spec fn shows(self, buffer: BufferView, namp: Seq<u8>, pwdp: Seq<u8>) -> bool {
        &&& buffer.holds(self.namp as int, namp)
        &&& buffer.holds(self.pwdp as int, pwdp)
    }

    /// Whether every address of the record is that of a byte written in
    /// `buffer`.
    pub open spec fn within(self, buffer: BufferView) -> bool {
        &&& buffer.written(self.namp as int)
        &&& buffer.written(self.pwdp as int)
    }

    /// The shadow record of the login name `login`, its strings written
    /// from the address `start` on: no password, no aging field set, no
    /// flag.
    pub open spec fn shadow(start: int, login: Seq<u8>) -> Spwd {
        Spwd {
            namp: start as usize,
            pwdp: (start + login.len() + 1) as usize,
            lstchg: UNSET,
            min: UNSET,
            max: UNSET,
            warn: UNSET,
            inact: UNSET,
            expire: UNSET,
            flag: 0,
        }
    }

    /// A record whose addresses are all null.
    pub fn empty() -> (record: Self)
        ensures
            record == (Spwd {
                namp: 0,
                pwdp: 0,
                lstchg: 0,
                min: 0,
                max: 0,
                warn: 0,
                inact: 0,
                expire: 0,
                flag: 0,
            }),
    {
        Spwd {
            namp: 0,
            pwdp: 0,
            lstchg: 0,
            min: 0,
            max: 0,
            warn: 0,
            inact: 0,
            expire: 0,
            flag: 0,
        }
    }

    /// Writes the two strings to `buf`, name first, and fills the record
    /// with their addresses and the numbers. Where the strings do not both
    /// fit, neither the record nor the buffer changes.
    pub fn pack(
        &mut self,
        buf: &mut Buffer,
        namp: &[u8],
        pwdp: &[u8],
        lstchg: libc::c_long,
        min: libc::c_long,
        max: libc::c_long,
        warn: libc::c_long,
        inact: libc::c_long,
        expire: libc::c_long,
        flag: libc::c_ulong,
    ) -> (packed: Result<(), OutOfSpace>)
        requires
            old(buf).wf(),
        ensures
            final(buf).wf(),
            match packed {
                Ok(_) => {
                    &&& old(buf)@.fits(Self::bytes(namp@, pwdp@).len() as int)
                    &&& final(buf)@ == old(buf)@.write(Self::bytes(namp@, pwdp@))
                    &&& *final(self) == (Spwd {
                        namp: old(buf)@.next() as usize,
                        pwdp: (old(buf)@.next() + namp@.len() + 1) as usize,
                        lstchg,
                        min,
                        max,
                        warn,
                        inact,
                        expire,
                        flag,
                    })
                    &&& final(self).shows(final(buf)@, namp@, pwdp@)
                    &&& final(self).within(final(buf)@)
                },
                Err(_) => {
                    &&& !old(buf)@.fits(Self::bytes(namp@, pwdp@).len() as int)
                    &&& final(buf)@ == old(buf)@
                    &&& *final(self) == *old(self)
                },
            },
    {
        let mark: usize = buf.used();
        let ghost before = buf@;
        let namp_at: usize = match write_or_rewind(buf, mark, namp) {
            Ok(addr) => addr,
            Err(e) => {
                assert(buf@.contents =~= before.contents);
                return Err(e);
            },
        };
        let ghost with_name = buf@;
        let pwdp_at: usize = match write_or_rewind(buf, mark, pwdp) {
            Ok(addr) => addr,
            Err(e) => {
                assert(buf@.contents =~= before.contents);
                return Err(e);
            },
        };
        self.namp = namp_at;
        self.pwdp = pwdp_at;
        self.lstchg = lstchg;
        self.min = min;
        self.max = max;
        self.warn = warn;
        self.inact = inact;
        self.expire = expire;
        self.flag = flag;
        proof {
            assert(buf@.contents =~= before.contents + Self::bytes(namp@, pwdp@));
            assert(with_name == before.write(c_string(namp@)));
            assert(buf@ == with_name.write(c_string(pwdp@)));
            lemma_written_string(before, namp@);
            lemma_written_string(with_name, pwdp@);
            lemma_write_extends(with_name, c_string(pwdp@));
            lemma_extends_keeps_string(buf@, with_name, namp_at as int, namp@);
        }
        Ok(())
    }

    /// Packs the shadow record of the login name `name`: the password
    /// field is `!!`, each of the six aging fields is unset, and the flag
    /// is zero. Where the strings do not both fit, neither the record nor
    /// the buffer changes.
    pub fn pack_args(&mut self, buf: &mut Buffer, name: &str) -> (packed: Result<(), OutOfSpace>)
        requires
            old(buf).wf(),
        ensures
            final(buf).wf(),
            match packed {
                Ok(_) => {
                    &&& old(buf)@.fits(Self::bytes(name.spec_bytes(), password_none()).len() as int)
                    &&& final(buf)@ == old(buf)@.write(
                        Self::bytes(name.spec_bytes(), password_none()),
                    )
                    &&& *final(self) == Self::shadow(old(buf)@.next(), name.spec_bytes())
                    &&& final(self).shows(final(buf)@, name.spec_bytes(), password_none())
                    &&& final(self).within(final(buf)@)
                },
                Err(_) => {
                    &&& !old(buf)@.fits(
                        Self::bytes(name.spec_bytes(), password_none()).len() as int,
                    )
                    &&& final(buf)@ == old(buf)@
                    &&& *final(self) == *old(self)
                },
            },
    {
        let none: [u8; 2] = [0x21, 0x21];
        assert(none@ =~= password_none());
        self.pack(
            buf,
            name.as_bytes(),
            none.as_slice(),
            UNSET,
            UNSET,
            UNSET,
            UNSET,
            UNSET,
            UNSET,
            0,
        )
    }
}

/// A group record.
#[derive(Clone, Copy, Debug, PartialEq, Eq)]
pub struct Group {
    /// The address of the group name.
    pub name: usize,
    /// The address of the password field.
    pub passwd: usize,
    pub gid: libc::gid_t,
    /// The address of the array of the addresses of the member names.
    pub mem: usize,
}

impl Group {
    /// The address from which the member names are written, where the
    /// record is written from `start` on.
    pub open spec fn members_start(start: int, name: Seq<u8>, passwd: Seq<u8>) -> int {
        start + name.len() + passwd.len() + 2
    }

    /// The bytes that the strings and the array of a group record take in
    /// the buffer, written from the address `start` on.
    pub open spec fn bytes(
        start: int,
        name: Seq<u8>,
        passwd: Seq<u8>,
        members: Seq<Seq<u8>>,
    ) -> Seq<u8> {
        c_string(name) + c_string(passwd) + string_array(
            Self::members_start(start, name, passwd),
            members,
        )
    }

    /// The record whose strings were written from the address `start` on.
    pub open spec fn laid_out(
        start: int,
        name: Seq<u8>,
        passwd: Seq<u8>,
        gid: u32,
        members: Seq<Seq<u8>>,
    ) -> Group {
        Group {
            name: start as usize,
            passwd: (start + name.len() + 1) as usize,
            gid,
            mem: table_address(Self::members_start(start, name, passwd), members) as usize,
        }
    }

    /// Whether each address of the record is that of the string named,
    /// written in `buffer` with its terminating zero byte, and the array
    /// is that of the addresses of the member names, one for each name and
    /// in their order, with a null address behind them.
    pub open spec fn shows(
        self,
        buffer: BufferView,
        name: Seq<u8>,
        passwd: Seq<u8>,
        members: Seq<Seq<u8>>,
    ) -> bool {
        &&& buffer.holds(self.name as int, name)
        &&& buffer.holds(self.passwd as int, passwd)
        &&& buffer.holds_array(self.mem as int, members)
    }

    /// Whether every address of the record is that of bytes written in
    /// `buffer`, and the array stands at a multiple of the word size.
    pub open spec fn within(self, buffer: BufferView) -> bool {
        &&& buffer.written(self.name as int)
        &&& buffer.written(self.passwd as int)
        &&& buffer.written_range(self.mem as int, word_size())
        &&& self.mem as int % word_size() == 0
    }

    /// A record whose addresses are all null.
    pub fn empty() -> (record: Self)
        ensures
            record == (Group { name: 0, passwd: 0, gid: 0, mem: 0 }),
    {
        Group { name: 0, passwd: 0, gid: 0, mem: 0 }
    }

    /// Writes the name, the password field and the array of the member
    /// names to `buf`, in this order, and fills the record with their
    /// addresses and the group id. Where not all of it fits, neither the
    /// record nor the buffer changes.
    pub fn pack(
        &mut self,
        buf: &mut Buffer,
        name: &[u8],
        passwd: &[u8],
        gid: libc::gid_t,
        mem: &Vec<&str>,
    ) -> (packed: Result<(), OutOfSpace>)
        requires
            old(buf).wf(),
        ensures
            final(buf).wf(),
            match packed {
                Ok(_) => {
                    &&& old(buf)@.fits(
                        Self::bytes(old(buf)@.next(), name@, passwd@, encodings(mem@)).len() as int,
                    )
                    &&& final(buf)@ == old(buf)@.write(
                        Self::bytes(old(buf)@.next(), name@, passwd@, encodings(mem@)),
                    )
                    &&& *final(self) == Self::laid_out(
                        old(buf)@.next(),
                        name@,
                        passwd@,
                        gid,
                        encodings(mem@),
                    )
                    &&& final(self).shows(final(buf)@, name@, passwd@, encodings(mem@))
                    &&& final(self).within(final(buf)@)
                },
                Err(_) => {
                    &&& !old(buf)@.fits(
                        Self::bytes(old(buf)@.next(), name@, passwd@, encodings(mem@)).len() as int,
                    )
                    &&& final(buf)@ == old(buf)@
                    &&& *final(self) == *old(self)
                },
            },
    {
        let mark: usize = buf.used();
        let ghost before = buf@;
        let ghost members = encodings(mem@);
        let ghost start = Self::members_start(before.next(), name@, passwd@);
        proof {
            lemma_string_array_len(start, members);
        }
        let name_at: usize = match write_or_rewind(buf, mark, name) {
            Ok(addr) => addr,
            Err(e) => {
                assert(buf@.contents =~= before.contents);
                return Err(e);
            },
        };
        let ghost with_name = buf@;
        let passwd_at: usize = match write_or_rewind(buf, mark, passwd) {
            Ok(addr) => addr,
            Err(e) => {
                assert(buf@.contents =~= before.contents);
                return Err(e);
            },
        };
        let ghost with_passwd = buf@;
        let mem_at: usize = match buf.write_string_array(mem) {
            Ok(addr) => addr,
            Err(e) => {
                buf.rewind(mark);
                assert(buf@.contents =~= before.contents);
                return Err(e);
            },
        };
        self.name = name_at;
        self.passwd = passwd_at;
        self.gid = gid;
        self.mem = mem_at;
        proof {
            assert(buf@.contents =~= before.contents + Self::bytes(
                before.next(),
                name@,
                passwd@,
                members,
            ));
            assert(with_name == before.write(c_string(name@)));
            assert(with_passwd == with_name.write(c_string(passwd@)));
            lemma_written_string(before, name@);
            lemma_written_string(with_name, passwd@);
            lemma_write_extends(with_name, c_string(passwd@));
            lemma_write_extends(with_passwd, string_array(start, members));
            lemma_extends_keeps_string(with_passwd, with_name, name_at as int, name@);
            lemma_extends_keeps_string(buf@, with_passwd, name_at as int, name@);
            lemma_extends_keeps_string(buf@, with_passwd, passwd_at as int, passwd@);
            lemma_written_array(with_passwd, members);
            lemma_array_is_aligned(start, members);
            lemma_array_holds_word(with_passwd, members, 0);
            assert(slot(mem_at as int, 0) == mem_at);
        }
        Ok(())
    }

    /// Packs the group record of the team: the name is `name`, the
    /// password field is `x`, the group id is `id`, and the members are
    /// `members`, in their order. Where not all of it fits, neither the
    /// record nor the buffer changes.
    pub fn pack_args(
        &mut self,
        buf: &mut Buffer,
        name: &str,
        id: u64,
        members: &Vec<&str>,
    ) -> (packed: Result<(), OutOfSpace>)
        requires
            old(buf).wf(),
        ensures
            final(buf).wf(),
            match packed {
                Ok(_) => {
                    &&& old(buf)@.fits(
                        Self::bytes(
                            old(buf)@.next(),
                            name.spec_bytes(),
                            password_elsewhere(),
                            encodings(members@),
                        ).len() as int,
                    )
                    &&& final(buf)@ == old(buf)@.write(
                        Self::bytes(
                            old(buf)@.next(),
                            name.spec_bytes(),
                            password_elsewhere(),
                            encodings(members@),
                        ),
                    )
                    &&& *final(self) == Self::laid_out(
                        old(buf)@.next(),
                        name.spec_bytes(),
                        password_elsewhere(),
                        id32(id),
                        encodings(members@),
                    )
                    &&& final(self).shows(
                        final(buf)@,
                        name.spec_bytes(),
                        password_elsewhere(),
                        encodings(members@),
                    )
                    &&& final(self).within(final(buf)@)
                },
                Err(_) => {
                    &&& !old(buf)@.fits(
                        Self::bytes(
                            old(buf)@.next(),
                            name.spec_bytes(),
                            password_elsewhere(),
                            encodings(members@),
                        ).len() as int,
                    )
                    &&& final(buf)@ == old(buf)@
                    &&& *final(self) == *old(self)
                },
            },
    {
        let elsewhere: [u8; 1] = [0x78];
        assert(elsewhere@ =~= password_elsewhere());
        self.pack(buf, name.as_bytes(), elsewhere.as_slice(), to_id32(id), members)
    }
}

} // verus!
