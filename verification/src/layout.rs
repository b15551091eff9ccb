//! How words and arrays of strings are laid out in memory.
//!
//! A word holds an address, least significant byte first, in as many bytes
//! as an address has on the machine. An array of strings is the strings,
//! each with its terminating zero byte, then zero bytes up to the next
//! address that is a multiple of the word size, then one word for the
//! address of each string and a last word that is zero.

use crate::text::c_string;
use vstd::prelude::*;

verus! {

/// The number of bytes of an address: 4 or 8.
pub open spec fn word_size() -> int {
    usize::BITS as int / 8
}

/// The number of bytes of an address.
pub fn word_width() -> (width: usize)
    ensures
        width == word_size(),
        width == 4 || width == 8,
{
    (usize::BITS / 8) as usize
}

/// The `n` lowest bytes of `v`, the least significant first.
pub open spec fn le_bytes(v: nat, n: nat) -> Seq<u8>
    decreases n,
{
    if n == 0 {
        Seq::empty()
    } else {
        seq![(v % 256) as u8] + le_bytes(v / 256, (n - 1) as nat)
    }
}

/// The number whose bytes are `bytes`, the least significant first.
pub open spec fn le_value(bytes: Seq<u8>) -> nat
    decreases bytes.len(),
{
    if bytes.len() == 0 {
        0
    } else {
        bytes[0] as nat + 256 * le_value(bytes.skip(1))
    }
}

/// The smallest number that `n` bytes cannot hold.
pub open spec fn byte_limit(n: nat) -> nat
    decreases n,
{
    if n == 0 {
        1
    } else {
        256 * byte_limit((n - 1) as nat)
    }
}

/// The word that holds the address `v`.
pub open spec fn word(v: int) -> Seq<u8> {
    le_bytes(v as nat, word_size() as nat)
}

/// `le_bytes` gives as many bytes as were asked for.
pub proof fn lemma_le_bytes_len(v: nat, n: nat)
    ensures
        le_bytes(v, n).len() == n,
    decreases n,
{
    if n > 0 {
        lemma_le_bytes_len(v / 256, (n - 1) as nat);
    }
}

/// Bytes that hold a number give the number back.
pub proof fn lemma_le_value_of_bytes(v: nat, n: nat)
    requires
        v < byte_limit(n),
    ensures
        le_value(le_bytes(v, n)) == v,
    decreases n,
{
    if n > 0 {
        let bytes = le_bytes(v, n);
        let rest = le_bytes(v / 256, (n - 1) as nat);
        lemma_le_bytes_len(v / 256, (n - 1) as nat);
        assert(bytes.skip(1) =~= rest);
        lemma_le_value_of_bytes(v / 256, (n - 1) as nat);
    }
}

/// Every address fits in a word.
pub proof fn lemma_word_holds_address(v: usize)
    ensures
        word(v as int).len() == word_size(),
        le_value(word(v as int)) == v,
{
    lemma_le_bytes_len(v as nat, word_size() as nat);
    assert(byte_limit(4) == 0x1_0000_0000) by {
        reveal_with_fuel(byte_limit, 5);
    }
    assert(byte_limit(8) == 0x1_0000_0000_0000_0000) by {
        reveal_with_fuel(byte_limit, 9);
    }
    lemma_le_value_of_bytes(v as nat, word_size() as nat);
}

/// `n` zero bytes.
pub open spec fn zeros(n: int) -> Seq<u8> {
    Seq::new(n as nat, |i: int| 0u8)
}

/// The number of bytes from `addr` to the next address that is a multiple
/// of the word size.
pub open spec fn padding(addr: int) -> int {
    (word_size() - addr % word_size()) % word_size()
}

/// The strings one after the other, each with its terminating zero byte.
pub open spec fn c_strings(items: Seq<Seq<u8>>) -> Seq<u8>
    decreases items.len(),
{
    if items.len() == 0 {
        Seq::empty()
    } else {
        c_strings(items.drop_last()) + c_string(items.last())
    }
}

/// The address of the string `i`, where the strings begin at `start`.
pub open spec fn item_address(start: int, items: Seq<Seq<u8>>, i: int) -> int {
    start + c_strings(items.take(i)).len()
}

/// The words for the addresses of the first `n` strings.
pub open spec fn pointer_words(start: int, items: Seq<Seq<u8>>, n: int) -> Seq<u8>
    decreases n,
{
    if n <= 0 {
        Seq::empty()
    } else {
        pointer_words(start, items, n - 1) + word(item_address(start, items, n - 1))
    }
}

/// The address of the word `i` of the array at `addr`.
pub open spec fn slot(addr: int, i: int) -> int {
    addr + i * word_size()
}

/// The address of the first word of the array whose strings begin at
/// `start`.
pub open spec fn table_address(start: int, items: Seq<Seq<u8>>) -> int {
    let end = start + c_strings(items).len();
    end + padding(end)
}

/// The bytes of an array of strings that is written from `start` on.
pub open spec fn string_array(start: int, items: Seq<Seq<u8>>) -> Seq<u8> {
    c_strings(items) + zeros(padding(start + c_strings(items).len())) + pointer_words(
        start,
        items,
        items.len() as int,
    ) + word(0)
}

/// The number of bytes of an array of strings that is written from `start`
/// on.
pub open spec fn string_array_len(start: int, items: Seq<Seq<u8>>) -> int {
    c_strings(items).len() + padding(start + c_strings(items).len()) + (items.len() + 1)
        * word_size()
}

/// One more string adds its bytes and its terminator.
pub proof fn lemma_c_strings_step(items: Seq<Seq<u8>>, i: int)
    requires
        0 <= i < items.len(),
    ensures
        c_strings(items.take(i + 1)) == c_strings(items.take(i)) + c_string(items[i]),
        c_strings(items.take(i + 1)).len() == c_strings(items.take(i)).len() + items[i].len() + 1,
{
    assert(items.take(i + 1).drop_last() =~= items.take(i));
    assert(items.take(i + 1).last() == items[i]);
}

/// The first strings take no more bytes than all of them.
pub proof fn lemma_c_strings_grows(items: Seq<Seq<u8>>, i: int)
    requires
        0 <= i <= items.len(),
    ensures
        c_strings(items.take(i)).len() <= c_strings(items).len(),
    decreases items.len() - i,
{
    if i == items.len() {
        assert(items.take(i) =~= items);
    } else {
        lemma_c_strings_step(items, i);
        lemma_c_strings_grows(items, i + 1);
    }
}

/// The words for `n` addresses take `n` words.
pub proof fn lemma_pointer_words_len(start: int, items: Seq<Seq<u8>>, n: int)
    requires
        0 <= n,
    ensures
        pointer_words(start, items, n).len() == n * word_size(),
    decreases n,
{
    if n > 0 {
        lemma_pointer_words_len(start, items, n - 1);
        lemma_le_bytes_len(item_address(start, items, n - 1) as nat, word_size() as nat);
        assert(n * word_size() == (n - 1) * word_size() + word_size()) by (nonlinear_arith);
    } else {
        assert(0 * word_size() == 0);
    }
}

/// The padding is less than a word and leads to a multiple of the word size.
pub proof fn lemma_padding(addr: int)
    requires
        0 <= addr,
    ensures
        0 <= padding(addr) < word_size(),
        (addr + padding(addr)) % word_size() == 0,
{
    let w = word_size();
    assert(w == 4 || w == 8);
    if w == 4 {
        assert((addr + (4 - addr % 4) % 4) % 4 == 0);
    } else {
        assert((addr + (8 - addr % 8) % 8) % 8 == 0);
    }
}

/// An array of strings has the length that `string_array_len` gives.
pub proof fn lemma_string_array_len(start: int, items: Seq<Seq<u8>>)
    requires
        0 <= start,
    ensures
        string_array(start, items).len() == string_array_len(start, items),
        string_array_len(start, items) >= c_strings(items).len() + word_size(),
{
    lemma_padding(start + c_strings(items).len());
    lemma_pointer_words_len(start, items, items.len() as int);
    lemma_word_holds_address(0);
    assert((items.len() + 1) * word_size() == items.len() * word_size() + word_size())
        by (nonlinear_arith);
    assert(items.len() * word_size() >= 0) by (nonlinear_arith)
        requires
            items.len() >= 0,
            word_size() >= 0,
    ;
}

/// More bytes hold larger numbers.
pub proof fn lemma_byte_limit_grows(m: nat, n: nat)
    requires
        m <= n,
    ensures
        1 <= byte_limit(m) <= byte_limit(n),
    decreases n,
{
    if m < n {
        lemma_byte_limit_grows(m, (n - 1) as nat);
    } else if n > 0 {
        lemma_byte_limit_grows((m - 1) as nat, (n - 1) as nat);
    }
}

/// The number that bytes hold is below the limit of as many bytes.
pub proof fn lemma_le_value_bound(bytes: Seq<u8>)
    ensures
        le_value(bytes) < byte_limit(bytes.len()),
    decreases bytes.len(),
{
    if bytes.len() > 0 {
        lemma_le_value_bound(bytes.skip(1));
    }
}

/// The number that a word holds is an address.
pub proof fn lemma_word_value_is_address(bytes: Seq<u8>)
    requires
        bytes.len() == word_size(),
    ensures
        le_value(bytes) <= usize::MAX,
{
    lemma_le_value_bound(bytes);
    assert(byte_limit(4) == 0x1_0000_0000) by {
        reveal_with_fuel(byte_limit, 5);
    }
    assert(byte_limit(8) == 0x1_0000_0000_0000_0000) by {
        reveal_with_fuel(byte_limit, 9);
    }
}

/// The bytes of the first strings stand at the front of the bytes of all
/// the strings.
pub proof fn lemma_c_strings_prefix(items: Seq<Seq<u8>>, i: int)
    requires
        0 <= i <= items.len(),
    ensures
        c_strings(items.take(i)).len() <= c_strings(items).len(),
        c_strings(items).take(c_strings(items.take(i)).len() as int) == c_strings(items.take(i)),
    decreases items.len() - i,
{
    if i == items.len() {
        assert(items.take(i) =~= items);
        assert(c_strings(items).take(c_strings(items).len() as int) =~= c_strings(items));
    } else {
        lemma_c_strings_step(items, i);
        lemma_c_strings_prefix(items, i + 1);
        let all = c_strings(items);
        let more = c_strings(items.take(i + 1));
        let fewer = c_strings(items.take(i));
        assert(all.take(fewer.len() as int) =~= all.take(more.len() as int).take(
            fewer.len() as int,
        ));
        assert(more.take(fewer.len() as int) =~= fewer);
    }
}

/// The string `i` stands among the bytes of all the strings where
/// `item_address` says.
pub proof fn lemma_c_strings_item(items: Seq<Seq<u8>>, i: int)
    requires
        0 <= i < items.len(),
    ensures
        c_strings(items.take(i)).len() + items[i].len() + 1 <= c_strings(items).len(),
        c_strings(items).subrange(
            c_strings(items.take(i)).len() as int,
            c_strings(items.take(i)).len() as int + items[i].len() + 1,
        ) == c_string(items[i]),
{
    lemma_c_strings_step(items, i);
    lemma_c_strings_prefix(items, i + 1);
    let all = c_strings(items);
    let more = c_strings(items.take(i + 1));
    let fewer = c_strings(items.take(i));
    assert(all.subrange(fewer.len() as int, more.len() as int) =~= all.take(
        more.len() as int,
    ).subrange(fewer.len() as int, more.len() as int));
    assert(more.subrange(fewer.len() as int, more.len() as int) =~= c_string(items[i]));
}

/// The word `i` of the words for `n` addresses holds the address of the
/// string `i`.
pub proof fn lemma_pointer_words_item(start: int, items: Seq<Seq<u8>>, n: int, i: int)
    requires
        0 <= i < n,
    ensures
        (i + 1) * word_size() <= pointer_words(start, items, n).len(),
        pointer_words(start, items, n).subrange(i * word_size(), (i + 1) * word_size()) == word(
            item_address(start, items, i),
        ),
    decreases n,
{
    let w = word_size();
    let all = pointer_words(start, items, n);
    let front = pointer_words(start, items, n - 1);
    let last = word(item_address(start, items, n - 1));
    lemma_pointer_words_len(start, items, n);
    lemma_pointer_words_len(start, items, n - 1);
    lemma_le_bytes_len(item_address(start, items, n - 1) as nat, w as nat);
    assert((i + 1) * w == i * w + w) by (nonlinear_arith);
    assert(n * w == (n - 1) * w + w) by (nonlinear_arith);
    assert((i + 1) * w <= n * w) by (nonlinear_arith)
        requires
            i < n,
            w > 0,
    ;
    if i == n - 1 {
        assert(all.subrange(i * w, (i + 1) * w) =~= last);
    } else {
        lemma_pointer_words_item(start, items, n - 1, i);
        assert((i + 1) * w <= (n - 1) * w) by (nonlinear_arith)
            requires
                i < n - 1,
                w > 0,
        ;
        assert(all.subrange(i * w, (i + 1) * w) =~= front.subrange(i * w, (i + 1) * w));
    }
}

} // verus!
