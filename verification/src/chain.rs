//! Resolution of a multi-level pointer inside another process.
//!
//! Starting from a base address, each level reads a 32-bit word at the
//! current address and adds the level's offset.  The word is read into the
//! buffer that holds the current address, so it replaces the low 32 bits of
//! that buffer and leaves the rest untouched.

use vstd::prelude::*;

verus! {

/// Number of distinct 32-bit words.
pub open spec fn word_modulus() -> int {
    0x1_0000_0000
}

/// The low 32 bits of an address-sized value.
pub open spec fn low_word(value: usize) -> u32 {
    (value as int % word_modulus()) as u32
}

/// The buffer value after `word` has been written over the low 32 bits of
/// `current`.
pub open spec fn spliced(current: usize, word: u32) -> int {
    current - current as int % word_modulus() + word
}

/// A request to read one 32-bit word of the game's memory.
///
/// `prefill` is the low word of the buffer that the word is read into, as it
/// stands before the read: it is what the buffer still holds where a read
/// leaves it untouched.
#[derive(Clone, Copy, Debug, PartialEq, Eq, Structural)]
pub struct ReadRequest {
    pub address: usize,
    pub prefill: u32,
}

/// The request that reads at `address` into a buffer that holds `address`.
pub open spec fn request_at(address: usize) -> ReadRequest {
    ReadRequest { address, prefill: low_word(address) }
}

/// The value of a pointer chain after the words `words` were read, or
/// `None` where an addition went past the largest address.
pub open spec fn chain_value(base: usize, offsets: Seq<usize>, words: Seq<u32>) -> Option<usize>
    decreases words.len(),
{
    if words.len() == 0 {
        Some(base)
    } else {
        match chain_value(base, offsets, words.drop_last()) {
            None => None,
            Some(current) => {
                let next: int = spliced(current, words.last()) + offsets[words.len() - 1];
                if next <= usize::MAX {
                    Some(next as usize)
                } else {
                    None
                }
            },
        }
    }
}

pub fn request_for(address: usize) -> (r: ReadRequest)
    ensures
        r == request_at(address),
{
    let a: u64 = address as u64;
    ReadRequest { address, prefill: (a % 0x1_0000_0000u64) as u32 }
}

fn splice_low_word(current: usize, word: u32) -> (r: usize)
    ensures
        r as int == spliced(current, word),
{
    let c: u64 = current as u64;
    let w: u64 = word as u64;
    let s: u64 = (c & 0xFFFF_FFFF_0000_0000u64) | w;
    assert(s == c - c % 0x1_0000_0000 + w) by (bit_vector)
        requires
            s == (c & 0xFFFF_FFFF_0000_0000u64) | w,
            w < 0x1_0000_0000,
    ;
    if usize::MAX == 0xFFFF_FFFF {
        assert(c % 0x1_0000_0000 == c);
    }
    s as usize
}

/// The resolution of one pointer chain, driven one read at a time.
pub struct PointerChain {
    base: usize,
    offsets: Vec<usize>,
    current: usize,
    steps: usize,
    overflowed: bool,
    words: Ghost<Seq<u32>>,
}

impl PointerChain {
    pub closed spec fn base(&self) -> usize {
        self.base
    }

    pub closed spec fn offsets(&self) -> Seq<usize> {
        self.offsets@
    }

    /// The words read so far, in order.
    pub closed spec fn words(&self) -> Seq<u32> {
        self.words@
    }

    pub open spec fn value(&self) -> Option<usize> {
        chain_value(self.base(), self.offsets(), self.words())
    }

    /// A read is owed: not every level is resolved and nothing overflowed.
    pub open spec fn is_pending(&self) -> bool {
        self.words().len() < self.offsets().len() && self.value() is Some
    }

    pub closed spec fn wf(&self) -> bool {
        &&& self.steps == self.words@.len()
        &&& self.steps <= self.offsets@.len()
        &&& self.overflowed <==> chain_value(self.base, self.offsets@, self.words@) is None
        &&& !self.overflowed ==> chain_value(self.base, self.offsets@, self.words@) == Some(
            self.current,
        )
    }

    /// A chain at `base` that has read nothing yet.
    pub fn new(base: usize, offsets: Vec<usize>) -> (c: PointerChain)
        ensures
            c.wf(),
            c.base() == base,
            c.offsets() == offsets@,
            c.words() == Seq::<u32>::empty(),
    {
        PointerChain {
            base,
            offsets,
            current: base,
            steps: 0,
            overflowed: false,
            words: Ghost(Seq::empty()),
        }
    }

    /// The read that comes next, or `None` when the chain is resolved or
    /// has overflowed.
    pub fn next_read(&self) -> (r: Option<ReadRequest>)
        requires
            self.wf(),
        ensures
            r == (if self.is_pending() {
                Some(request_at(self.value().unwrap()))
            } else {
                None
            }),
    {
        if self.overflowed || self.steps >= self.offsets.len() {
            None
        } else {
            Some(request_for(self.current))
        }
    }

    /// Takes the low word that the pending read left in its buffer, and
    /// adds the level's offset.  `Err` where the addition overflows.
    pub fn supply(&mut self, word: u32) -> (r: Result<(), ()>)
        requires
            old(self).wf(),
            old(self).is_pending(),
        ensures
            final(self).wf(),
            final(self).base() == old(self).base(),
            final(self).offsets() == old(self).offsets(),
            final(self).words() == old(self).words().push(word),
            r is Ok <==> final(self).value() is Some,
    {
        let ghost old_words = self.words@;
        let spliced_value: usize = splice_low_word(self.current, word);
        let offset: usize = self.offsets[self.steps];
        let level_count: usize = self.offsets.len();
        assert(self.steps < level_count);
        self.words = Ghost(old_words.push(word));
        self.steps = self.steps + 1;
        assert(self.words@.drop_last() == old_words);
        match spliced_value.checked_add(offset) {
            Some(next) => {
                self.current = next;
                Ok(())
            },
            None => {
                self.overflowed = true;
                Err(())
            },
        }
    }

    /// The resolved address once every level has been read; `None` before,
    /// and after an overflow.
    pub fn result(&self) -> (r: Option<usize>)
        requires
            self.wf(),
        ensures
            r == (if self.words().len() == self.offsets().len() {
                self.value()
            } else {
                None
            }),
    {
        if self.overflowed || self.steps < self.offsets.len() {
            None
        } else {
            Some(self.current)
        }
    }
}

/// A chain with no levels left to read stands at its base.
pub proof fn law_unread_chain_is_base(base: usize, offsets: Seq<usize>)
    ensures
        chain_value(base, offsets, Seq::empty()) == Some(base),
{
}

/// A read replaces the low 32 bits of the buffer with the word read and
/// keeps every higher bit.
pub proof fn law_read_replaces_low_word(current: usize, word: u32)
    ensures
        spliced(current, word) >= 0,
        spliced(current, word) % word_modulus() == word,
        spliced(current, word) / word_modulus() == current as int / word_modulus(),
{
    let m: int = word_modulus();
    let q: int = current as int / m;
    vstd::arithmetic::div_mod::lemma_fundamental_div_mod(current as int, m);
    assert(spliced(current, word) == q * m + word);
    vstd::arithmetic::div_mod::lemma_fundamental_div_mod_converse(
        spliced(current, word),
        m,
        q,
        word as int,
    );
}

/// Below 2^32 a level is a plain dereference: the next value is the word
/// read plus the level's offset, where that sum is an address.
pub proof fn law_low_level_is_dereference(base: usize, offsets: Seq<usize>, words: Seq<u32>)
    requires
        words.len() > 0,
        chain_value(base, offsets, words.drop_last()) matches Some(current) && current
            < word_modulus(),
    ensures
        chain_value(base, offsets, words) == (if words.last() + offsets[words.len() - 1]
            <= usize::MAX {
            Some((words.last() + offsets[words.len() - 1]) as usize)
        } else {
            None
        }),
{
    let current: usize = chain_value(base, offsets, words.drop_last()).unwrap();
    assert(current as int % word_modulus() == current);
}

/// A read request's prefill is the low 32 bits of the buffer value: the
/// value minus a multiple of 2^32, below 2^32.
pub proof fn law_prefill_is_low_bits(value: usize)
    ensures
        low_word(value) < 0x1_0000_0000int,
        (value as int - low_word(value) as int) % 0x1_0000_0000int == 0,
        value < 0x1_0000_0000int ==> low_word(value) == value,
{
}

/// One level of a chain: from the value reached so far, the next value is
/// the higher bits of that value, plus the word read, plus the level's
/// offset; the chain overflows exactly when that passes the largest address,
/// and stays overflowed.
pub proof fn law_chain_step(base: usize, offsets: Seq<usize>, words: Seq<u32>, word: u32)
    ensures
        chain_value(base, offsets, words) is None ==> chain_value(base, offsets, words.push(word))
            is None,
        chain_value(base, offsets, words) matches Some(current) ==> {
            let next: int = (current as int / 0x1_0000_0000int) * 0x1_0000_0000int + word
                + offsets[words.len() as int];
            &&& (next <= usize::MAX ==> chain_value(base, offsets, words.push(word)) == Some(
                next as usize,
            ))
            &&& (next > usize::MAX ==> chain_value(base, offsets, words.push(word)) is None)
        },
{
    assert(words.push(word).drop_last() =~= words);
    if let Some(current) = chain_value(base, offsets, words) {
        let m: int = 0x1_0000_0000int;
        vstd::arithmetic::div_mod::lemma_fundamental_div_mod(current as int, m);
        assert(spliced(current, word) == (current as int / m) * m + word);
    }
}

} // verus!
