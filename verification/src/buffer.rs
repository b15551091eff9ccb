//! A bump allocator over a region of memory that the caller owns.
//!
//! The region is borrowed for as long as the `Buffer` lives and nothing is
//! ever written outside it. What the allocator hands out are addresses: the
//! address that the caller gave for the first byte of the region, plus the
//! offset of what was written.

use crate::layout::{
    byte_limit, c_strings, item_address, le_bytes, le_value, lemma_byte_limit_grows,
    lemma_c_strings_grows, lemma_c_strings_step, lemma_le_value_bound, lemma_padding,
    lemma_pointer_words_len, lemma_string_array_len, lemma_word_value_is_address, padding,
    pointer_words, string_array, string_array_len, table_address, word, word_size, word_width,
    zeros,
};
use crate::memory::{first_zero, BufferView};
use crate::text::c_string;
use vstd::prelude::*;
use vstd::slice::slice_subrange;
use vstd::string::StringSliceAdditionalSpecFns;

verus! {

/// The region cannot take what was to be written.
#[derive(Clone, Copy, Debug, PartialEq, Eq, Structural)]
pub struct OutOfSpace;

/// A bump allocator over a borrowed region of memory.
pub struct Buffer<'a> {
    region: &'a mut [u8],
    base: usize,
    used: usize,
}

impl<'a> View for Buffer<'a> {
    type V = BufferView;

    closed spec fn view(&self) -> BufferView {
        BufferView {
            base: self.base,
            capacity: self.region@.len() as usize,
            contents: self.region@.take(self.used as int),
        }
    }
}

impl<'a> Buffer<'a> {
    /// The fields agree with each other.
    pub closed spec fn consistent(&self) -> bool {
        self.used <= self.region@.len()
    }

    /// The buffer is one that `new` made and the methods kept.
    pub open spec fn wf(&self) -> bool {
        &&& self.consistent()
        &&& self@.wf()
    }

    /// An empty buffer over `region`, whose first byte the host sees at the
    /// address `base`.
    pub fn new(region: &'a mut [u8], base: usize) -> (buffer: Self)
        requires
            0 < base,
            base + old(region)@.len() <= usize::MAX,
        ensures
            buffer.wf(),
            buffer@.base == base,
            buffer@.capacity == old(region)@.len(),
            buffer@.contents == Seq::<u8>::empty(),
    {
        let buffer = Buffer { region, base, used: 0 };
        assert(buffer@.contents =~= Seq::<u8>::empty());
        buffer
    }

    /// The address of the first byte of the region.
    pub fn base(&self) -> (base: usize)
        ensures
            base == self@.base,
    {
        self.base
    }

    /// The length of the region.
    pub fn capacity(&self) -> (capacity: usize)
        ensures
            capacity == self@.capacity,
    {
        self.region.len()
    }

    /// The number of bytes written so far.
    pub fn used(&self) -> (used: usize)
        requires
            self.wf(),
        ensures
            used == self@.contents.len(),
    {
        self.used
    }

    /// The number of bytes that can still be written.
    pub fn remaining(&self) -> (remaining: usize)
        requires
            self.wf(),
        ensures
            remaining == self@.remaining(),
    {
        self.region.len() - self.used
    }

    /// The bytes written so far.
    pub fn written(&self) -> (bytes: &[u8])
        requires
            self.wf(),
        ensures
            bytes@ == self@.contents,
    {
        let bytes = slice_subrange(&*self.region, 0, self.used);
        assert(bytes@ =~= self@.contents);
        bytes
    }

    /// Ends the use of the region and hands it back: what was written
    /// stands at its front.
    pub fn into_region(self) -> (region: &'a mut [u8])
        requires
            self.wf(),
        ensures
            region@.len() == self@.capacity,
            region@.take(self@.contents.len() as int) == self@.contents,
    {
        let capacity: usize = self.region.len();
        assert(capacity == self@.capacity);
        self.region
    }

    /// Gives back what was written after `mark` bytes.
    pub(crate) fn rewind(&mut self, mark: usize)
        requires
            old(self).wf(),
            mark <= old(self)@.contents.len(),
        ensures
            final(self).wf(),
            final(self)@.base == old(self)@.base,
            final(self)@.capacity == old(self)@.capacity,
            final(self)@.contents == old(self)@.contents.take(mark as int),
    {
        self.used = mark;
        assert(self@.contents =~= old(self)@.contents.take(mark as int));
    }

    /// Copies `data` to the free space and hands out its address, or
    /// changes nothing where `data` does not fit.
    pub fn write_bytes(&mut self, data: &[u8]) -> (written: Result<usize, OutOfSpace>)
        requires
            old(self).wf(),
        ensures
            final(self).wf(),
            match written {
                Ok(addr) => {
                    &&& old(self)@.fits(data@.len() as int)
                    &&& addr == old(self)@.next()
                    &&& final(self)@ == old(self)@.write(data@)
                },
                Err(_) => {
                    &&& !old(self)@.fits(data@.len() as int)
                    &&& final(self)@ == old(self)@
                },
            },
    {
        if data.len() > self.region.len() - self.used {
            return Err(OutOfSpace);
        }
        let start: usize = self.used;
        let mut i: usize = 0;
        while i < data.len()
            invariant
                i <= data@.len(),
                start + data@.len() <= self.region@.len() <= usize::MAX,
                self.used == start,
                self.base == old(self).base,
                self.region@.len() == old(self).region@.len(),
                self.region@.take(start as int) == old(self).region@.take(start as int),
                self.region@.subrange(start as int, start + i) == data@.take(i as int),
            decreases data@.len() - i,
        {
            let ghost before = self.region@;
            self.region[start + i] = data[i];
            assert(self.region@.take(start as int) =~= before.take(start as int));
            assert(self.region@.subrange(start as int, start + i + 1) =~= before.subrange(
                start as int,
                start + i,
            ).push(data@[i as int]));
            assert(data@.take(i + 1) =~= data@.take(i as int).push(data@[i as int]));
            i = i + 1;
        }
        self.used = start + data.len();
        assert(data@.take(data@.len() as int) =~= data@);
        assert(self@.contents =~= old(self)@.contents + data@);
        Ok(self.base + start)
    }

    /// Writes one byte, which fits.
    fn put(&mut self, byte: u8)
        requires
            old(self).wf(),
            old(self)@.fits(1),
        ensures
            final(self).wf(),
            final(self)@ == old(self)@.write(seq![byte]),
    {
        let at: usize = self.used;
        self.region[at] = byte;
        self.used = at + 1;
        assert(self@.contents =~= old(self)@.contents + seq![byte]);
    }

    /// Writes `count` zero bytes, which fit.
    fn write_zeros(&mut self, count: usize)
        requires
            old(self).wf(),
            old(self)@.fits(count as int),
        ensures
            final(self).wf(),
            final(self)@ == old(self)@.write(zeros(count as int)),
    {
        let mut k: usize = 0;
        assert(old(self)@.contents + zeros(0) =~= old(self)@.contents);
        while k < count
            invariant
                k <= count,
                self.wf(),
                self@.base == old(self)@.base,
                self@.capacity == old(self)@.capacity,
                old(self)@.fits(count as int),
                self@.contents == old(self)@.contents + zeros(k as int),
            decreases count - k,
        {
            self.put(0);
            assert(zeros(k as int).push(0u8) =~= zeros(k + 1));
            assert(self@.contents =~= old(self)@.contents + zeros(k + 1));
            k = k + 1;
        }
    }

    /// Writes the word that holds `value`, which fits.
    fn write_word(&mut self, value: usize)
        requires
            old(self).wf(),
            old(self)@.fits(word_size()),
        ensures
            final(self).wf(),
            final(self)@ == old(self)@.write(word(value as int)),
    {
        let width: usize = word_width();
        let mut rest: usize = value;
        let mut k: usize = 0;
        let ghost mut done: Seq<u8> = Seq::empty();
        assert(old(self)@.contents + done =~= old(self)@.contents);
        assert(done + le_bytes(rest as nat, (width - k) as nat) =~= word(value as int));
        while k < width
            invariant
                k <= width,
                width == word_size(),
                self.wf(),
                self@.base == old(self)@.base,
                self@.capacity == old(self)@.capacity,
                old(self)@.fits(word_size()),
                done.len() == k,
                self@.contents == old(self)@.contents + done,
                word(value as int) == done + le_bytes(rest as nat, (width - k) as nat),
            decreases width - k,
        {
            let byte: u8 = (rest % 256) as u8;
            let ghost tail = le_bytes((rest / 256) as nat, (width - k - 1) as nat);
            assert(le_bytes(rest as nat, (width - k) as nat) == seq![byte] + tail);
            self.put(byte);
            proof {
                assert(done + (seq![byte] + tail) =~= done.push(byte) + tail);
                assert(old(self)@.contents + done + seq![byte] =~= old(self)@.contents + done.push(
                    byte,
                ));
                done = done.push(byte);
            }
            rest = rest / 256;
            k = k + 1;
        }
        assert(done + le_bytes(rest as nat, 0) =~= done);
    }

    /// Copies `text` and a terminating zero byte to the free space and
    /// hands out the address of the first byte, or changes nothing where
    /// the two do not fit.
    pub fn write_c_string(&mut self, text: &[u8]) -> (written: Result<usize, OutOfSpace>)
        requires
            old(self).wf(),
        ensures
            final(self).wf(),
            match written {
                Ok(addr) => {
                    &&& old(self)@.fits(text@.len() as int + 1)
                    &&& addr == old(self)@.next()
                    &&& final(self)@ == old(self)@.write(c_string(text@))
                },
                Err(_) => {
                    &&& !old(self)@.fits(text@.len() as int + 1)
                    &&& final(self)@ == old(self)@
                },
            },
    {
        if text.len() >= self.region.len() - self.used {
            return Err(OutOfSpace);
        }
        let addr: usize = match self.write_bytes(text) {
            Ok(addr) => addr,
            Err(e) => {
                return Err(e);
            },
        };
        self.put(0);
        assert(self@.contents =~= old(self)@.contents + c_string(text@));
        Ok(addr)
    }

    /// Copies `text` and a terminating zero byte to the free space and
    /// hands out the address of the first byte, or changes nothing where
    /// the two do not fit.
    pub fn write_string(&mut self, text: &str) -> (written: Result<usize, OutOfSpace>)
        requires
            old(self).wf(),
        ensures
            final(self).wf(),
            match written {
                Ok(addr) => {
                    &&& old(self)@.fits(text.spec_bytes().len() as int + 1)
                    &&& addr == old(self)@.next()
                    &&& final(self)@ == old(self)@.write(c_string(text.spec_bytes()))
                },
                Err(_) => {
                    &&& !old(self)@.fits(text.spec_bytes().len() as int + 1)
                    &&& final(self)@ == old(self)@
                },
            },
    {
        self.write_c_string(text.as_bytes())
    }

    /// Writes the strings `items`, each with its terminating zero byte, or
    /// changes nothing where they do not all fit.
    fn write_strings(&mut self, items: &Vec<&str>) -> (written: Result<(), OutOfSpace>)
        requires
            old(self).wf(),
        ensures
            final(self).wf(),
            match written {
                Ok(_) => {
                    &&& old(self)@.fits(c_strings(encodings(items@)).len() as int)
                    &&& final(self)@ == old(self)@.write(c_strings(encodings(items@)))
                },
                Err(_) => {
                    &&& !old(self)@.fits(c_strings(encodings(items@)).len() as int)
                    &&& final(self)@ == old(self)@
                },
            },
    {
        let mark: usize = self.used;
        let count: usize = items.len();
        let ghost texts = encodings(items@);
        proof {
            assert(texts.take(0) =~= Seq::<Seq<u8>>::empty());
            assert(old(self)@.contents + c_strings(texts.take(0)) =~= old(self)@.contents);
        }
        let mut i: usize = 0;
        while i < count
            invariant
                i <= count,
                count == items@.len(),
                texts == encodings(items@),
                old(self).wf(),
                mark == old(self)@.contents.len(),
                self.wf(),
                self@.base == old(self)@.base,
                self@.capacity == old(self)@.capacity,
                self@.contents == old(self)@.contents + c_strings(texts.take(i as int)),
            decreases count - i,
        {
            proof {
                lemma_c_strings_step(texts, i as int);
                lemma_c_strings_grows(texts, i + 1);
            }
            match self.write_string(items[i]) {
                Ok(_) => {},
                Err(_) => {
                    self.rewind(mark);
                    assert(self@.contents =~= old(self)@.contents);
                    return Err(OutOfSpace);
                },
            }
            assert(self@.contents =~= old(self)@.contents + c_strings(texts.take(i + 1)));
            i = i + 1;
        }
        assert(texts.take(count as int) =~= texts);
        Ok(())
    }

    /// Writes the words for the addresses of the strings `items`, which
    /// begin at `first`, and a last word that is zero. All of them fit.
    fn write_pointers(&mut self, first: usize, items: &Vec<&str>)
        requires
            old(self).wf(),
            first + c_strings(encodings(items@)).len() <= usize::MAX,
            old(self)@.fits((items@.len() + 1) * word_size()),
        ensures
            final(self).wf(),
            final(self)@ == old(self)@.write(
                pointer_words(first as int, encodings(items@), items@.len() as int) + word(0),
            ),
    {
        let count: usize = items.len();
        let ghost texts = encodings(items@);
        let ghost start = first as int;
        let mut addr: usize = first;
        let mut j: usize = 0;
        proof {
            assert(texts.take(0) =~= Seq::<Seq<u8>>::empty());
            assert(self@.contents =~= old(self)@.contents + pointer_words(start, texts, 0));
            assert(count * word_size() + word_size() == (count + 1) * word_size())
                by (nonlinear_arith);
        }
        while j < count
            invariant
                j <= count,
                count == items@.len(),
                texts == encodings(items@),
                start == first,
                first + c_strings(texts).len() <= usize::MAX,
                old(self).wf(),
                self.wf(),
                self@.base == old(self)@.base,
                self@.capacity == old(self)@.capacity,
                self@.contents == old(self)@.contents + pointer_words(start, texts, j as int),
                addr == item_address(start, texts, j as int),
                old(self)@.contents.len() + count * word_size() + word_size() <= self@.capacity,
            decreases count - j,
        {
            proof {
                lemma_pointer_words_len(start, texts, j as int);
                lemma_c_strings_step(texts, j as int);
                lemma_c_strings_grows(texts, j + 1);
                assert(j * word_size() + word_size() <= count * word_size())
                    by (nonlinear_arith)
                    requires
                        j < count,
                        word_size() > 0,
                ;
            }
            self.write_word(addr);
            assert(self@.contents =~= old(self)@.contents + pointer_words(start, texts, j + 1));
            addr = addr + items[j].len() + 1;
            j = j + 1;
        }
        proof {
            lemma_pointer_words_len(start, texts, count as int);
        }
        self.write_word(0);
        assert(self@.contents =~= old(self)@.contents + (pointer_words(
            start,
            texts,
            count as int,
        ) + word(0)));
    }

    /// Writes the strings `items`, each with its terminating zero byte, and
    /// behind them, at the next address that is a multiple of the word
    /// size, the array of their addresses, which ends with a null address.
    /// Hands out the address of the array, or changes nothing where not
    /// all of this fits.
    pub fn write_string_array(&mut self, items: &Vec<&str>) -> (written: Result<usize, OutOfSpace>)
        requires
            old(self).wf(),
        ensures
            final(self).wf(),
            match written {
                Ok(addr) => {
                    &&& old(self)@.fits(string_array_len(old(self)@.next(), encodings(items@)))
                    &&& addr == table_address(old(self)@.next(), encodings(items@))
                    &&& final(self)@ == old(self)@.write(
                        string_array(old(self)@.next(), encodings(items@)),
                    )
                },
                Err(_) => {
                    &&& !old(self)@.fits(string_array_len(old(self)@.next(), encodings(items@)))
                    &&& final(self)@ == old(self)@
                },
            },
    {
        let mark: usize = self.used;
        let first: usize = self.base + self.used;
        let ghost start = old(self)@.next();
        let ghost texts = encodings(items@);
        proof {
            lemma_string_array_len(start, texts);
        }
        if self.write_strings(items).is_err() {
            return Err(OutOfSpace);
        }
        let end: usize = self.base + self.used;
        let pad: usize = padding_at(end);
        let room: usize = self.region.len() - self.used;
        if pad > room || !words_fit(items.len(), room - pad) {
            proof {
                if pad > room {
                    lemma_words_take_room(items@.len() as int);
                }
            }
            self.rewind(mark);
            assert(self@.contents =~= old(self)@.contents);
            return Err(OutOfSpace);
        }
        self.write_zeros(pad);
        let table: usize = self.base + self.used;
        self.write_pointers(first, items);
        assert(self@.contents =~= old(self)@.contents + string_array(start, texts));
        Ok(table)
    }

    /// The string that the host reads at `addr`.
    pub fn read_string(&self, addr: usize) -> (text: Option<Vec<u8>>)
        requires
            self.wf(),
        ensures
            match text {
                Some(bytes) => self@.string_at(addr as int) == Some(bytes@),
                None => self@.string_at(addr as int) is None,
            },
    {
        if addr < self.base || addr - self.base >= self.used {
            return None;
        }
        let start: usize = addr - self.base;
        let mut text: Vec<u8> = Vec::new();
        let mut i: usize = start;
        assert(self@.contents.subrange(start as int, i as int) =~= text@);
        while i < self.used
            invariant
                self.wf(),
                start == addr - self.base,
                start <= i <= self.used,
                start < self.used,
                first_zero(self@.contents, start as int) == first_zero(self@.contents, i as int),
                text@ == self@.contents.subrange(start as int, i as int),
            decreases self.used - i,
        {
            let byte: u8 = self.region[i];
            assert(byte == self@.contents[i as int]);
            if byte == 0 {
                assert(first_zero(self@.contents, i as int) == Some(i as int));
                return Some(text);
            }
            assert(first_zero(self@.contents, i as int) == first_zero(self@.contents, i + 1));
            text.push(byte);
            assert(text@ =~= self@.contents.subrange(start as int, i + 1));
            i = i + 1;
        }
        assert(first_zero(self@.contents, i as int) is None);
        None
    }

    /// The address that the word at `addr` holds.
    pub fn read_word(&self, addr: usize) -> (value: Option<usize>)
        requires
            self.wf(),
        ensures
            value == self@.word_at(addr as int),
    {
        let width: usize = word_width();
        if addr < self.base || addr - self.base > self.used || self.used - (addr - self.base)
            < width {
            return None;
        }
        let start: usize = addr - self.base;
        let ghost bytes = self@.range(addr as int, word_size());
        let mut value: usize = 0;
        let mut k: usize = width;
        assert(bytes.skip(k as int) =~= Seq::<u8>::empty());
        while k > 0
            invariant
                self.wf(),
                k <= width,
                width == word_size(),
                start + width <= self.used,
                bytes == self@.contents.subrange(start as int, start + width),
                value == le_value(bytes.skip(k as int)),
            decreases k,
        {
            k = k - 1;
            let byte: u8 = self.region[start + k];
            proof {
                let seen = bytes.skip(k as int);
                assert(seen.skip(1) =~= bytes.skip(k + 1));
                assert(seen[0] == byte);
                assert(seen.len() <= width);
                lemma_le_value_bound(seen);
                lemma_byte_limit_grows(seen.len(), width as nat);
                lemma_word_value_is_address(bytes);
                lemma_le_value_bound(bytes);
                assert(byte_limit(4) == 0x1_0000_0000) by {
                    reveal_with_fuel(byte_limit, 5);
                }
                assert(byte_limit(8) == 0x1_0000_0000_0000_0000) by {
                    reveal_with_fuel(byte_limit, 9);
                }
            }
            value = value * 256 + byte as usize;
        }
        assert(bytes.skip(0) =~= bytes);
        Some(value)
    }

    /// The strings that the host reads through the array of addresses at
    /// `addr`.
    pub fn read_strings(&self, addr: usize) -> (texts: Option<Vec<Vec<u8>>>)
        requires
            self.wf(),
        ensures
            match texts {
                Some(items) => self@.strings_at(addr as int) == Some(byte_strings(items@)),
                None => self@.strings_at(addr as int) is None,
            },
    {
        let width: usize = word_width();
        let mut texts: Vec<Vec<u8>> = Vec::new();
        let mut at: usize = addr;
        assert(byte_strings(texts@) =~= Seq::<Seq<u8>>::empty());
        loop
            invariant
                self.wf(),
                width == word_size(),
                prepend(byte_strings(texts@), self@.strings_at(at as int)) == self@.strings_at(
                    addr as int,
                ),
            decreases self@.next() - at,
        {
            let pointer: usize = match self.read_word(at) {
                Some(pointer) => pointer,
                None => {
                    return None;
                },
            };
            if pointer == 0 {
                assert(byte_strings(texts@) + Seq::<Seq<u8>>::empty() =~= byte_strings(texts@));
                return Some(texts);
            }
            let text: Vec<u8> = match self.read_string(pointer) {
                Some(text) => text,
                None => {
                    return None;
                },
            };
            let ghost before = byte_strings(texts@);
            let ghost first = text@;
            texts.push(text);
            proof {
                assert(byte_strings(texts@) =~= before.push(first));
                let rest = self@.strings_at(at + word_size());
                if rest is Some {
                    assert(before + (seq![first] + rest->0) =~= before.push(first) + rest->0);
                }
            }
            at = at + width;
        }
    }
}

/// The number of bytes from `addr` to the next address that is a multiple
/// of the word size.
fn padding_at(addr: usize) -> (pad: usize)
    ensures
        pad == padding(addr as int),
        pad < word_size(),
{
    let width: usize = word_width();
    let gap: usize = addr % width;
    proof {
        lemma_padding(addr as int);
        if width == 4 {
            assert(padding(addr as int) == (4 - addr % 4) % 4);
        } else {
            assert(padding(addr as int) == (8 - addr % 8) % 8);
        }
    }
    if gap == 0 {
        0
    } else {
        width - gap
    }
}

/// Whether `count` addresses and the null address fit in `spare` bytes.
fn words_fit(count: usize, spare: usize) -> (fit: bool)
    ensures
        fit == ((count + 1) * word_size() <= spare),
{
    let width: usize = word_width();
    proof {
        if width == 4 {
            assert((count < spare / 4) <==> ((count + 1) * 4 <= spare));
        } else {
            assert((count < spare / 8) <==> ((count + 1) * 8 <= spare));
        }
    }
    count < spare / width
}

/// The words of an array take room.
proof fn lemma_words_take_room(count: int)
    requires
        0 <= count,
    ensures
        (count + 1) * word_size() >= 0,
{
    assert((count + 1) * word_size() >= 0) by (nonlinear_arith)
        requires
            count >= 0,
            word_size() > 0,
    ;
}

/// What the vectors `items` hold, in their order.
pub open spec fn byte_strings(items: Seq<Vec<u8>>) -> Seq<Seq<u8>> {
    Seq::new(items.len(), |i: int| items[i]@)
}

/// `front` before the strings `rest`, if there are any.
pub open spec fn prepend(front: Seq<Seq<u8>>, rest: Option<Seq<Seq<u8>>>) -> Option<
    Seq<Seq<u8>>,
> {
    match rest {
        Some(more) => Some(front + more),
        None => None,
    }
}

/// The encodings of the strings `items`, in their order.
pub open spec fn encodings(items: Seq<&str>) -> Seq<Seq<u8>> {
    Seq::new(items.len(), |i: int| items[i].spec_bytes())
}

} // verus!
