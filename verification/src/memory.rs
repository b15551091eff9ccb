//! What a buffer stands for: the bytes written to a region of memory, and
//! what the host reads in them.

use crate::layout::{
    c_strings, item_address, le_value, lemma_c_strings_grows, lemma_c_strings_item, lemma_padding,
    lemma_pointer_words_item, lemma_pointer_words_len, lemma_string_array_len,
    lemma_word_holds_address, pointer_words, slot, string_array, string_array_len, table_address,
    word, word_size,
};
use crate::text::{c_string, find_byte, lemma_find_byte_finds};
use vstd::prelude::*;

verus! {

/// The place of the first zero byte of `bytes` at or after `from`.
pub open spec fn first_zero(bytes: Seq<u8>, from: int) -> Option<int> {
    find_byte(bytes, 0u8, from)
}

/// What a `Buffer` stands for: where its region lies, how many bytes the
/// region has, and the bytes written so far. The bytes of the region that
/// were not written yet are no part of it.
pub struct BufferView {
    /// The address of the first byte of the region.
    pub base: usize,
    /// The length of the region.
    pub capacity: usize,
    /// The bytes written so far, from the start of the region.
    pub contents: Seq<u8>,
}

impl BufferView {
    /// The region lies in the address space, away from the null address, and
    /// no more was written than it can take.
    pub open spec fn wf(self) -> bool {
        &&& 0 < self.base
        &&& self.base + self.capacity <= usize::MAX
        &&& self.contents.len() <= self.capacity
    }

    /// The number of bytes that can still be written.
    pub open spec fn remaining(self) -> int {
        self.capacity - self.contents.len()
    }

    /// The address of the next byte to be written.
    pub open spec fn next(self) -> int {
        self.base + self.contents.len()
    }

    /// Whether `len` more bytes can be written.
    pub open spec fn fits(self, len: int) -> bool {
        len <= self.remaining()
    }

    /// The buffer after `data` was written.
    pub open spec fn write(self, data: Seq<u8>) -> BufferView {
        BufferView { contents: self.contents + data, ..self }
    }

    /// Whether `addr` is the address of a byte that was written.
    pub open spec fn written(self, addr: int) -> bool {
        self.base <= addr < self.next()
    }

    /// Whether the `len` bytes from `addr` on were all written.
    pub open spec fn written_range(self, addr: int, len: int) -> bool {
        self.base <= addr && 0 <= len && addr + len <= self.next()
    }

    /// The `len` bytes from `addr` on.
    pub open spec fn range(self, addr: int, len: int) -> Seq<u8> {
        self.contents.subrange(addr - self.base, addr - self.base + len)
    }

    /// Whether `s`, with its terminating zero byte, stands at `addr`.
    pub open spec fn holds(self, addr: int, s: Seq<u8>) -> bool {
        &&& self.written_range(addr, s.len() as int + 1)
        &&& self.range(addr, s.len() as int + 1) == c_string(s)
    }

    /// The string that the host reads at `addr`: the bytes from `addr` up
    /// to the first zero byte, if `addr` was written and a zero byte
    /// follows.
    pub open spec fn string_at(self, addr: int) -> Option<Seq<u8>> {
        if !self.written(addr) {
            None
        } else {
            match first_zero(self.contents, addr - self.base) {
                Some(end) => Some(self.contents.subrange(addr - self.base, end)),
                None => None,
            }
        }
    }

    /// The address that the word at `addr` holds, if a whole word was
    /// written there.
    pub open spec fn word_at(self, addr: int) -> Option<usize> {
        if self.written_range(addr, word_size()) {
            Some(le_value(self.range(addr, word_size())) as usize)
        } else {
            None
        }
    }

    /// The strings that the host reads through the array of addresses at
    /// `addr`, up to the null address that ends the array, if all of that
    /// was written.
    pub open spec fn strings_at(self, addr: int) -> Option<Seq<Seq<u8>>>
        decreases self.next() - addr,
    {
        match self.word_at(addr) {
            None => None,
            Some(pointer) => if pointer == 0 {
                Some(Seq::empty())
            } else {
                match (self.string_at(pointer as int), self.strings_at(addr + word_size())) {
                    (Some(first), Some(rest)) => Some(seq![first] + rest),
                    _ => None,
                }
            },
        }
    }

    /// Whether the word at `addr` holds the address of `s`, written with
    /// its terminating zero byte.
    pub open spec fn holds_pointer_to(self, addr: int, s: Seq<u8>) -> bool {
        match self.word_at(addr) {
            Some(pointer) => pointer != 0 && self.holds(pointer as int, s),
            None => false,
        }
    }

    /// Whether the array of addresses at `addr` is that of the strings
    /// `items`: one word for each, in their order, and a null address
    /// behind them.
    pub open spec fn holds_array(self, addr: int, items: Seq<Seq<u8>>) -> bool {
        &&& forall|i: int|
            0 <= i < items.len() ==> self.holds_pointer_to(slot(addr, i), #[trigger] items[i])
        &&& self.word_at(slot(addr, items.len() as int)) == Some(0usize)
    }

    /// Whether this buffer is `before` with more written to it, maybe.
    pub open spec fn extends(self, before: BufferView) -> bool {
        &&& self.base == before.base
        &&& self.capacity == before.capacity
        &&& before.contents.len() <= self.contents.len()
        &&& self.contents.take(before.contents.len() as int) == before.contents
    }
}

/// Whether no byte of `s` is zero, so that the host reads all of `s`.
pub open spec fn zero_free(s: Seq<u8>) -> bool {
    forall|k: int| 0 <= k < s.len() ==> #[trigger] s[k] != 0
}

/// Whether no string of `items` holds a zero byte.
pub open spec fn all_zero_free(items: Seq<Seq<u8>>) -> bool {
    forall|i: int| 0 <= i < items.len() ==> zero_free(#[trigger] items[i])
}

/// What was written stays where it is when more is written.
pub proof fn lemma_write_extends(before: BufferView, data: Seq<u8>)
    ensures
        before.write(data).extends(before),
{
    assert(before.write(data).contents.take(before.contents.len() as int) =~= before.contents);
}

/// A string that stands at an address still stands there after more was
/// written.
pub proof fn lemma_extends_keeps_string(
    after: BufferView,
    before: BufferView,
    addr: int,
    s: Seq<u8>,
)
    requires
        after.extends(before),
        before.holds(addr, s),
    ensures
        after.holds(addr, s),
{
    let from = addr - before.base;
    let len = s.len() as int + 1;
    assert(after.contents.subrange(from, from + len) =~= after.contents.take(
        before.contents.len() as int,
    ).subrange(from, from + len));
}

/// A string that was written stands at the address that was handed out
/// for it.
pub proof fn lemma_written_string(before: BufferView, s: Seq<u8>)
    ensures
        before.write(c_string(s)).holds(before.next(), s),
{
    let after = before.write(c_string(s));
    assert(after.range(before.next(), s.len() as int + 1) =~= c_string(s));
}

/// The host reads a string that stands at an address in full, unless the
/// string itself holds a zero byte.
pub proof fn lemma_held_string_is_read(buffer: BufferView, addr: int, s: Seq<u8>)
    requires
        buffer.holds(addr, s),
        zero_free(s),
    ensures
        buffer.string_at(addr) == Some(s),
{
    let from = addr - buffer.base;
    let end = from + s.len();
    let stored = buffer.range(addr, s.len() as int + 1);
    assert(stored[s.len() as int] == 0);
    assert forall|k: int| from <= k < end implies buffer.contents[k] != 0 by {
        assert(stored[k - from] == s[k - from]);
    }
    lemma_find_byte_finds(buffer.contents, 0u8, from, end);
    assert(buffer.contents.subrange(from, end) =~= stored.take(s.len() as int));
    assert(stored.take(s.len() as int) =~= s);
}

/// In an array of strings that was written, the string `i` stands at the
/// address that `item_address` gives.
pub proof fn lemma_array_holds_item(before: BufferView, items: Seq<Seq<u8>>, i: int)
    requires
        0 <= i < items.len(),
    ensures
        before.write(string_array(before.next(), items)).holds(
            item_address(before.next(), items, i),
            items[i],
        ),
{
    let start = before.next();
    let after = before.write(string_array(start, items));
    let all = c_strings(items);
    let skipped = c_strings(items.take(i)).len() as int;
    let len = items[i].len() as int + 1;
    lemma_c_strings_item(items, i);
    assert(after.range(item_address(start, items, i), len) =~= all.subrange(
        skipped,
        skipped + len,
    ));
}

/// In an array of strings that was written, the word `i` holds the address
/// of the string `i`, and the word behind the last of them the null
/// address.
pub proof fn lemma_array_holds_word(before: BufferView, items: Seq<Seq<u8>>, i: int)
    requires
        before.wf(),
        before.fits(string_array_len(before.next(), items)),
        0 <= i <= items.len(),
    ensures
        before.write(string_array(before.next(), items)).word_at(
            slot(table_address(before.next(), items), i),
        ) == Some(
            if i < items.len() {
                item_address(before.next(), items, i) as usize
            } else {
                0usize
            },
        ),
        i < items.len() ==> 0 < item_address(before.next(), items, i) <= usize::MAX,
{
    let start = before.next();
    let after = before.write(string_array(start, items));
    let w = word_size();
    let n = items.len() as int;
    let table = table_address(start, items);
    let words = pointer_words(start, items, n);
    lemma_string_array_len(start, items);
    lemma_padding(start + c_strings(items).len());
    lemma_pointer_words_len(start, items, n);
    lemma_word_holds_address(0);
    assert((i + 1) * w == i * w + w) by (nonlinear_arith);
    assert((n + 1) * w == n * w + w) by (nonlinear_arith);
    assert(0 <= i * w <= n * w) by (nonlinear_arith)
        requires
            0 <= i <= n,
            w > 0,
    ;
    if i < n {
        lemma_pointer_words_item(start, items, n, i);
        lemma_c_strings_grows(items, i);
        let addr = item_address(start, items, i);
        lemma_word_holds_address(addr as usize);
        assert(after.range(table + i * w, w) =~= words.subrange(i * w, (i + 1) * w));
    } else {
        assert(after.range(table + i * w, w) =~= word(0));
    }
}

/// The array of a written array of strings stands at a multiple of the
/// word size.
pub proof fn lemma_array_is_aligned(start: int, items: Seq<Seq<u8>>)
    requires
        0 <= start,
    ensures
        table_address(start, items) % word_size() == 0,
        start <= table_address(start, items),
{
    lemma_padding(start + c_strings(items).len());
}

/// An array of strings that was written stands at the address that was
/// handed out for it.
pub proof fn lemma_written_array(before: BufferView, items: Seq<Seq<u8>>)
    requires
        before.wf(),
        before.fits(string_array_len(before.next(), items)),
    ensures
        before.write(string_array(before.next(), items)).holds_array(
            table_address(before.next(), items),
            items,
        ),
{
    let start = before.next();
    let after = before.write(string_array(start, items));
    let table = table_address(start, items);
    assert forall|i: int| 0 <= i < items.len() implies after.holds_pointer_to(
        slot(table, i),
        #[trigger] items[i],
    ) by {
        lemma_array_holds_word(before, items, i);
        lemma_array_holds_item(before, items, i);
    }
    lemma_array_holds_word(before, items, items.len() as int);
}

/// A word that was written still holds the same address after more was
/// written.
pub proof fn lemma_extends_keeps_word(after: BufferView, before: BufferView, addr: int)
    requires
        after.extends(before),
        before.word_at(addr) is Some,
    ensures
        after.word_at(addr) == before.word_at(addr),
{
    let from = addr - before.base;
    assert(after.contents.subrange(from, from + word_size()) =~= after.contents.take(
        before.contents.len() as int,
    ).subrange(from, from + word_size()));
}

/// An array of strings that stands at an address still stands there
/// after more was written.
pub proof fn lemma_extends_keeps_array(
    after: BufferView,
    before: BufferView,
    addr: int,
    items: Seq<Seq<u8>>,
)
    requires
        after.extends(before),
        before.holds_array(addr, items),
    ensures
        after.holds_array(addr, items),
{
    assert forall|i: int| 0 <= i < items.len() implies after.holds_pointer_to(
        slot(addr, i),
        #[trigger] items[i],
    ) by {
        assert(before.holds_pointer_to(slot(addr, i), items[i]));
        lemma_extends_keeps_word(after, before, slot(addr, i));
        let pointer = before.word_at(slot(addr, i))->0;
        lemma_extends_keeps_string(after, before, pointer as int, items[i]);
    }
    lemma_extends_keeps_word(after, before, slot(addr, items.len() as int));
}

/// The host reads the strings from `i` on through the words from `i` on.
proof fn lemma_held_array_is_read_from(
    buffer: BufferView,
    addr: int,
    items: Seq<Seq<u8>>,
    i: int,
)
    requires
        buffer.holds_array(addr, items),
        all_zero_free(items),
        0 <= i <= items.len(),
    ensures
        buffer.strings_at(slot(addr, i)) == Some(items.skip(i)),
    decreases items.len() - i,
{
    if i < items.len() {
        assert(buffer.holds_pointer_to(slot(addr, i), items[i]));
        let pointer = buffer.word_at(slot(addr, i))->0;
        lemma_held_string_is_read(buffer, pointer as int, items[i]);
        lemma_held_array_is_read_from(buffer, addr, items, i + 1);
        assert(slot(addr, i + 1) == slot(addr, i) + word_size()) by (nonlinear_arith)
            requires
                slot(addr, i + 1) == addr + (i + 1) * word_size(),
                slot(addr, i) == addr + i * word_size(),
        ;
        assert(seq![items[i]] + items.skip(i + 1) =~= items.skip(i));
    } else {
        assert(items.skip(i) =~= Seq::<Seq<u8>>::empty());
    }
}

/// The host reads an array of strings as the strings that were written,
/// unless one of them holds a zero byte.
pub proof fn lemma_held_array_is_read(buffer: BufferView, addr: int, items: Seq<Seq<u8>>)
    requires
        buffer.holds_array(addr, items),
        all_zero_free(items),
    ensures
        buffer.strings_at(addr) == Some(items),
{
    lemma_held_array_is_read_from(buffer, addr, items, 0);
    assert(slot(addr, 0) == addr);
    assert(items.skip(0) =~= items);
}

} // verus!
