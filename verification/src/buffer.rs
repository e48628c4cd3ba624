//! Bit-packed mask buffers and the host-side store that models the device.
//!
//! A [`SelectionBuffer`] holds one bit per element of the collection being
//! selected over, packed into `ceil(element_count / 32)` 32-bit words.  On the
//! device the same layout lives in a storage buffer; the surrounding GPU layer
//! downloads it as the byte sequence that [`SelectionBuffer::from_mapped_bytes`]
//! decodes.  A [`MaskStore`] is the host-side model of the device's mask
//! buffers: evaluation temporaries are allocated in it and recorded commands
//! are run against it.

use vstd::prelude::*;

use crate::bits;
use crate::bits::bit_of;
use crate::bits::bits_of;
use crate::bits::zero_bits;
use crate::error::Error;

verus! {

/// Number of 32-bit words needed for one bit per element: `ceil(n / 32)`.
pub open spec fn spec_word_count(n: nat) -> nat {
    (n + 31) / 32
}

/// The word count is the rounded-up quotient: it covers all `n` element bits
/// and is one more than `n / 32` exactly when `n` is not a multiple of 32.
pub proof fn lemma_word_count(n: nat)
    ensures
        32 * spec_word_count(n) >= n,
        32 * spec_word_count(n) <= n + 31,
        spec_word_count(n) == n / 32 + if n % 32 == 0 {
            0int
        } else {
            1int
        },
{
    let x: int = n as int;
    vstd::arithmetic::div_mod::lemma_fundamental_div_mod(x, 32);
    let q: int = x / 32;
    let r: int = x % 32;
    if r == 0 {
        vstd::arithmetic::div_mod::lemma_fundamental_div_mod_converse(x + 31, 32, q, 31);
    } else {
        vstd::arithmetic::div_mod::lemma_fundamental_div_mod_converse(x + 31, 32, q + 1, r - 1);
    }
}

/// Number of 32-bit words needed for one bit per element.
pub fn word_count_for(element_count: u32) -> (n: usize)
    ensures
        n == spec_word_count(element_count as nat),
{
    proof {
        lemma_word_count(element_count as nat);
    }
    let extra: u32 = if element_count % 32 != 0 {
        1
    } else {
        0
    };
    (element_count / 32 + extra) as usize
}

/// The value of a 32-bit word stored as four little-endian bytes.
pub open spec fn le_word(b0: u8, b1: u8, b2: u8, b3: u8) -> u32 {
    (b0 + b1 * 256 + b2 * 65536 + b3 * 16777216) as u32
}

proof fn lemma_le_word(b0: u8, b1: u8, b2: u8, b3: u8)
    by (bit_vector)
    ensures
        ((b0 as u32) | ((b1 as u32) << 8u32) | ((b2 as u32) << 16u32) | ((b3 as u32) << 24u32)) == (
        b0 + b1 * 256 + b2 * 65536 + b3 * 16777216) as u32,
{
}

/// Number of set bits in a bit sequence.
pub open spec fn count_set(s: Seq<bool>) -> nat
    decreases s.len(),
{
    if s.len() == 0 {
        0
    } else {
        count_set(s.drop_last()) + if s.last() {
            1nat
        } else {
            0nat
        }
    }
}

pub proof fn lemma_count_set_le(s: Seq<bool>)
    ensures
        count_set(s) <= s.len(),
    decreases s.len(),
{
    if s.len() > 0 {
        lemma_count_set_le(s.drop_last());
    }
}

/// A fixed-capacity bit set over `element_count` elements, packed into
/// `ceil(element_count / 32)` 32-bit words; bit `k` of word `w` is the bit of
/// element `32 * w + k`.  The size is fixed at construction.  A fresh buffer
/// reads as all zeros, matching the zero-initialized device buffer it stands
/// for.
#[derive(Debug, Clone)]
pub struct SelectionBuffer {
    words: Vec<u32>,
    element_count: u32,
}

impl SelectionBuffer {
    /// How many elements the buffer covers.
    pub closed spec fn spec_element_count(self) -> nat {
        self.element_count as nat
    }

    /// The packed words, element bits and padding bits alike.
    pub closed spec fn spec_words(self) -> Seq<u32> {
        self.words@
    }

    /// The buffer holds exactly the words its capacity calls for.
    pub open spec fn wf(self) -> bool {
        self.spec_words().len() == spec_word_count(self.spec_element_count())
    }

    /// Bit `i` of the packed words.
    pub open spec fn spec_bit(self, i: int) -> bool {
        bit_of(self.spec_words(), i)
    }

    /// All packed bits, including the padding bits of the last word.
    pub open spec fn spec_bits(self) -> Seq<bool> {
        bits_of(self.spec_words())
    }

    /// The element bits alone, without the padding bits.
    pub open spec fn element_bits(self) -> Seq<bool> {
        Seq::new(self.spec_element_count(), |i: int| self.spec_bit(i))
    }

    /// Create a buffer over `element_count` elements, all bits clear.
    pub fn new(element_count: u32) -> (r: Self)
        ensures
            r.wf(),
            r.spec_element_count() == element_count,
            r.spec_words() =~= Seq::new(
                spec_word_count(element_count as nat),
                |i: int| 0u32,
            ),
            forall|i: int| 0 <= i < 32 * r.spec_words().len() ==> !r.spec_bit(i),
            r.spec_bits() =~= zero_bits(32 * spec_word_count(element_count as nat)),
    {
        let wc: usize = word_count_for(element_count);
        let mut words: Vec<u32> = Vec::new();
        while words.len() < wc
            invariant
                words@.len() <= wc,
                forall|i: int| 0 <= i < words@.len() ==> words@[i] == 0u32,
            decreases wc - words@.len(),
        {
            words.push(0u32);
        }
        let r = SelectionBuffer { words, element_count };
        proof {
            assert forall|i: int| 0 <= i < 32 * r.spec_words().len() implies !r.spec_bit(i) by {
                bits::lemma_bit_word_index(i, r.spec_words().len() as int);
                bits::lemma_zero_word_bit((i % 32) as u32);
            }
            assert forall|i: int| 0 <= i < r.spec_bits().len() implies r.spec_bits()[i]
                == false by {
                assert(r.spec_bits()[i] == r.spec_bit(i));
            }
            assert(r.spec_bits() =~= zero_bits(32 * spec_word_count(element_count as nat)));
        }
        r
    }

    /// Wrap an existing word vector of the right length.
    pub fn from_words(element_count: u32, words: Vec<u32>) -> (r: Self)
        requires
            words@.len() == spec_word_count(element_count as nat),
        ensures
            r.wf(),
            r.spec_element_count() == element_count,
            r.spec_words() == words@,
    {
        SelectionBuffer { words, element_count }
    }

    /// Decode the byte sequence of a mapped device buffer: the packed words
    /// stored little-endian.  A mapped range of the wrong size is reported as
    /// a mapping failure.
    pub fn from_mapped_bytes(element_count: u32, bytes: &Vec<u8>) -> (r: Result<Self, Error>)
        ensures
            r is Ok <==> bytes@.len() == 4 * spec_word_count(element_count as nat),
            r matches Ok(b) ==> {
                &&& b.wf()
                &&& b.spec_element_count() == element_count
                &&& forall|w: int|
                    0 <= w < b.spec_words().len() ==> b.spec_words()[w] == le_word(
                        bytes@[4 * w],
                        bytes@[4 * w + 1],
                        bytes@[4 * w + 2],
                        bytes@[4 * w + 3],
                    )
            },
            r is Err ==> r == Err::<SelectionBuffer, Error>(Error::MapFailed),
    {
        let wc: usize = word_count_for(element_count);
        proof {
            lemma_word_count(element_count as nat);
        }
        if bytes.len() / 4 != wc || bytes.len() % 4 != 0 {
            return Err(Error::MapFailed);
        }
        let mut words: Vec<u32> = Vec::new();
        let mut w: usize = 0;
        while w < wc
            invariant
                w <= wc,
                32 * (wc as int) <= element_count + 31,
                words@.len() == w,
                bytes@.len() == 4 * wc,
                forall|k: int|
                    0 <= k < w ==> words@[k] == le_word(
                        bytes@[4 * k],
                        bytes@[4 * k + 1],
                        bytes@[4 * k + 2],
                        bytes@[4 * k + 3],
                    ),
            decreases wc - w,
        {
            let b0: u8 = bytes[4 * w];
            let b1: u8 = bytes[4 * w + 1];
            let b2: u8 = bytes[4 * w + 2];
            let b3: u8 = bytes[4 * w + 3];
            let word: u32 = (b0 as u32) | ((b1 as u32) << 8u32) | ((b2 as u32) << 16u32) | ((
            b3 as u32) << 24u32);
            proof {
                lemma_le_word(b0, b1, b2, b3);
            }
            words.push(word);
            w = w + 1;
        }
        Ok(SelectionBuffer { words, element_count })
    }

    /// How many elements the buffer covers.
    pub fn element_count(&self) -> (n: u32)
        ensures
            n as nat == self.spec_element_count(),
    {
        self.element_count
    }

    /// How many packed words the buffer holds.
    pub fn word_count(&self) -> (n: usize)
        ensures
            n == self.spec_words().len(),
    {
        self.words.len()
    }

    /// Read the bit of element `i`.
    pub fn get(&self, i: u32) -> (b: bool)
        requires
            self.wf(),
            (i as nat) < self.spec_element_count(),
        ensures
            b == self.spec_bit(i as int),
    {
        proof {
            lemma_word_count(self.spec_element_count());
        }
        bits::get_bit(&self.words, i as usize)
    }

    /// Write the bit of element `i`, leaving every other bit as it was.
    pub fn set(&mut self, i: u32, b: bool)
        requires
            old(self).wf(),
            (i as nat) < old(self).spec_element_count(),
        ensures
            final(self).wf(),
            final(self).spec_element_count() == old(self).spec_element_count(),
            final(self).spec_words().len() == old(self).spec_words().len(),
            final(self).spec_bit(i as int) == b,
            forall|j: int|
                0 <= j < 32 * old(self).spec_words().len() && j != i
                    ==> final(self).spec_bit(j) == old(self).spec_bit(j),
    {
        proof {
            lemma_word_count(self.spec_element_count());
        }
        bits::set_bit(&mut self.words, i as usize, b);
    }

    /// Number of set element bits.
    pub fn count_ones(&self) -> (c: u32)
        requires
            self.wf(),
        ensures
            c as nat == count_set(self.element_bits()),
    {
        let n: u32 = self.element_count;
        let mut c: u32 = 0;
        let mut i: u32 = 0;
        while i < n
            invariant
                self.wf(),
                n as nat == self.spec_element_count(),
                i <= n,
                c <= i,
                c as nat == count_set(self.element_bits().take(i as int)),
            decreases n - i,
        {
            proof {
                lemma_count_set_le(self.element_bits().take(i as int));
                assert(self.element_bits().take(i + 1).drop_last() =~= self.element_bits().take(
                    i as int,
                ));
            }
            if self.get(i) {
                c = c + 1;
            }
            i = i + 1;
        }
        proof {
            assert(self.element_bits().take(n as int) =~= self.element_bits());
        }
        c
    }

    /// Read the packed words back to the host.
    ///
    /// On the device this is the one suspending operation: it records a copy
    /// into a host-visible staging buffer, submits it, awaits the mapping,
    /// and can fail with a recoverable [`Error`].  The host model always
    /// succeeds; a buffer that was never written reads as all zeros, the
    /// fixed content policy for fresh buffers.
    pub fn download(&self) -> (r: Result<Vec<u32>, Error>)
        ensures
            r matches Ok(w) && w@ == self.spec_words(),
    {
        let mut out: Vec<u32> = Vec::new();
        let mut i: usize = 0;
        while i < self.words.len()
            invariant
                i <= self.words@.len(),
                out@ =~= self.words@.take(i as int),
            decreases self.words@.len() - i,
        {
            out.push(self.words[i]);
            i = i + 1;
        }
        proof {
            assert(out@ =~= self.words@);
        }
        Ok(out)
    }
}

/// Per-buffer element counts of a store.
pub open spec fn store_counts(s: Seq<SelectionBuffer>) -> Seq<nat> {
    Seq::new(s.len(), |i: int| s[i].spec_element_count())
}

/// Per-buffer packed bits of a store.
pub open spec fn store_bits(s: Seq<SelectionBuffer>) -> Seq<Seq<bool>> {
    Seq::new(s.len(), |i: int| s[i].spec_bits())
}

/// The host-side pool of mask buffers: the model of the device-resident
/// buffers one evaluation touches.  Buffers are referred to by the index
/// under which they were added; temporaries allocated during lowering are
/// appended at the end.
#[derive(Debug)]
pub struct MaskStore {
    bufs: Vec<SelectionBuffer>,
}

impl View for MaskStore {
    type V = Seq<SelectionBuffer>;

    closed spec fn view(&self) -> Seq<SelectionBuffer> {
        self.bufs@
    }
}

impl MaskStore {
    /// Every buffer holds the words its capacity calls for.
    pub open spec fn wf(self) -> bool {
        forall|i: int| 0 <= i < self@.len() ==> (#[trigger] self@[i]).wf()
    }

    /// An empty store.
    pub fn new() -> (r: Self)
        ensures
            r.wf(),
            r@ =~= Seq::<SelectionBuffer>::empty(),
    {
        MaskStore { bufs: Vec::new() }
    }

    /// How many buffers the store holds.
    pub fn len(&self) -> (n: usize)
        ensures
            n == self@.len(),
    {
        self.bufs.len()
    }

    /// Add an existing buffer; its id is the previous length.
    pub fn insert(&mut self, buf: SelectionBuffer) -> (id: usize)
        requires
            buf.wf(),
        ensures
            final(self)@ == old(self)@.push(buf),
            id == old(self)@.len(),
            old(self).wf() ==> final(self).wf(),
    {
        let id: usize = self.bufs.len();
        self.bufs.push(buf);
        id
    }

    /// Allocate a fresh all-zero buffer over `element_count` elements.
    pub fn alloc_buffer(&mut self, element_count: u32) -> (id: usize)
        ensures
            final(self)@.len() == old(self)@.len() + 1,
            id == old(self)@.len(),
            forall|i: int| 0 <= i < old(self)@.len() ==> final(self)@[i] == old(self)@[i],
            final(self)@[id as int].wf(),
            final(self)@[id as int].spec_element_count() == element_count,
            final(self)@[id as int].spec_words() =~= Seq::new(
                spec_word_count(element_count as nat),
                |i: int| 0u32,
            ),
            forall|i: int|
                0 <= i < 32 * final(self)@[id as int].spec_words().len() ==> !final(self)@[id as int].spec_bit(i),
            final(self)@[id as int].spec_bits() =~= zero_bits(
                32 * spec_word_count(element_count as nat),
            ),
            old(self).wf() ==> final(self).wf(),
    {
        let buf = SelectionBuffer::new(element_count);
        let id: usize = self.bufs.len();
        self.bufs.push(buf);
        id
    }

    /// Borrow the buffer with the given id.
    pub fn buffer(&self, id: usize) -> (r: &SelectionBuffer)
        requires
            id < self@.len(),
        ensures
            *r == self@[id as int],
    {
        &self.bufs[id]
    }

    /// Download the words of the buffer with the given id.
    pub fn download(&self, id: usize) -> (r: Result<Vec<u32>, Error>)
        requires
            id < self@.len(),
        ensures
            r matches Ok(w) && w@ == self@[id as int].spec_words(),
    {
        self.bufs[id].download()
    }

    /// Read one packed bit of one buffer.
    pub(crate) fn bit_at(&self, id: usize, i: u32) -> (b: bool)
        requires
            id < self@.len(),
            (i as int) < 32 * self@[id as int].spec_words().len(),
        ensures
            b == self@[id as int].spec_bit(i as int),
    {
        bits::get_bit(&self.bufs[id].words, i as usize)
    }

    /// Write one packed bit of one buffer, leaving everything else as it was.
    pub(crate) fn set_bit_at(&mut self, id: usize, i: u32, b: bool)
        requires
            id < old(self)@.len(),
            (i as int) < 32 * old(self)@[id as int].spec_words().len(),
        ensures
            final(self)@.len() == old(self)@.len(),
            forall|k: int| 0 <= k < old(self)@.len() && k != id ==> final(self)@[k] == old(self)@[k],
            final(self)@[id as int].spec_element_count() == old(self)@[id as int].spec_element_count(),
            final(self)@[id as int].spec_words().len() == old(self)@[id as int].spec_words().len(),
            final(self)@[id as int].spec_bit(i as int) == b,
            forall|j: int|
                0 <= j < 32 * old(self)@[id as int].spec_words().len() && j != i ==> final(self)@[id as int].spec_bit(j) == old(self)@[id as int].spec_bit(j),
    {
        let buf: &mut SelectionBuffer = &mut self.bufs[id];
        bits::set_bit(&mut buf.words, i as usize, b);
    }

    /// Replace the words of `dest` with those of `source`, a whole-buffer
    /// copy between buffers of equal word count.
    pub(crate) fn copy_words_at(&mut self, source: usize, dest: usize)
        requires
            source < old(self)@.len(),
            dest < old(self)@.len(),
            old(self)@[source as int].spec_words().len() == old(self)@[dest as int].spec_words().len(),
        ensures
            final(self)@.len() == old(self)@.len(),
            forall|k: int|
                0 <= k < old(self)@.len() && k != dest ==> final(self)@[k] == old(self)@[k],
            final(self)@[dest as int].spec_element_count() == old(self)@[dest as int].spec_element_count(),
            final(self)@[dest as int].spec_words() == old(self)@[source as int].spec_words(),
    {
        let mut v: Vec<u32> = Vec::new();
        let m: usize = self.bufs[source].words.len();
        let mut i: usize = 0;
        while i < m
            invariant
                i <= m,
                source < self@.len(),
                m == self@[source as int].spec_words().len(),
                v@ =~= self@[source as int].spec_words().take(i as int),
            decreases m - i,
        {
            let w: u32 = self.bufs[source].words[i];
            v.push(w);
            i = i + 1;
        }
        proof {
            assert(v@ =~= self@[source as int].spec_words());
        }
        let buf: &mut SelectionBuffer = &mut self.bufs[dest];
        buf.words = v;
    }
}

} // verus!
