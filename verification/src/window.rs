//! The sliding window from which back-references are resolved.
use vstd::prelude::*;

verus! {

/// The number of bytes that the window keeps.
pub const WINDOW_SIZE: usize = 0x10000;

/// The view of a [`Window`].
pub struct WindowView {
    /// Every byte appended since the window was made, oldest first, a
    /// preloaded dictionary included.
    pub bytes: Seq<u8>,
    /// The number of bytes appended since the window was made, not counting
    /// a preloaded dictionary.
    pub plain_pos: usize,
}

/// The byte that a copy at a distance reads: the byte that many places
/// before the end of what was appended, or zero where nothing was appended
/// yet. The window goes round: distances count modulo its size, and
/// distance zero reads the oldest place that the window keeps.
pub open spec fn match_source(bytes: Seq<u8>, distance: int) -> u8 {
    let turn = distance % (WINDOW_SIZE as int);
    let back = if turn == 0 { WINDOW_SIZE as int } else { turn };
    if back <= bytes.len() {
        bytes[bytes.len() - back]
    } else {
        0
    }
}

/// What was appended after a copy of `length` bytes at a distance. Each byte
/// is appended before the next is read, so a copy may overlap itself.
pub open spec fn copy_match(bytes: Seq<u8>, distance: int, length: nat) -> Seq<u8>
    decreases length,
{
    if length == 0 {
        bytes
    } else {
        copy_match(bytes.push(match_source(bytes, distance)), distance, (length - 1) as nat)
    }
}

/// A copy appends `length` bytes and leaves what was there before.
pub proof fn lemma_copy_match_extends(bytes: Seq<u8>, distance: int, length: nat)
    ensures
        copy_match(bytes, distance, length).len() == bytes.len() + length,
        copy_match(bytes, distance, length).subrange(0, bytes.len() as int) == bytes,
    decreases length,
{
    if length > 0 {
        let next = bytes.push(match_source(bytes, distance));
        lemma_copy_match_extends(next, distance, (length - 1) as nat);
        let all = copy_match(bytes, distance, length);
        assert(all.subrange(0, bytes.len() as int) =~= all.subrange(0, next.len() as int).subrange(
            0,
            bytes.len() as int,
        ));
        assert(next.subrange(0, bytes.len() as int) =~= bytes);
    } else {
        assert(bytes.subrange(0, bytes.len() as int) =~= bytes);
    }
}

/// Within a copy at a distance of at least one, byte `i` is the byte that
/// stood `distance` places before it.
pub proof fn lemma_copy_match_periodic(bytes: Seq<u8>, distance: int, length: nat, i: int)
    requires
        1 <= distance <= WINDOW_SIZE,
        bytes.len() <= i < bytes.len() + length,
    ensures
        copy_match(bytes, distance, length)[i] == if i - distance >= 0 {
            copy_match(bytes, distance, length)[i - distance]
        } else {
            0
        },
    decreases length,
{
    let next = bytes.push(match_source(bytes, distance));
    lemma_copy_match_extends(next, distance, (length - 1) as nat);
    let all = copy_match(bytes, distance, length);
    assert(all.subrange(0, next.len() as int)[bytes.len() as int] == all[bytes.len() as int]);
    if i == bytes.len() {
        if i - distance >= 0 {
            assert(all.subrange(0, next.len() as int)[i - distance] == all[i - distance]);
        }
    } else {
        lemma_copy_match_periodic(next, distance, (length - 1) as nat, i);
    }
}

/// A circular buffer of the bytes appended last, with the count of the
/// plaintext bytes produced so far.
pub struct Window {
    data: [u8; 0x10000],
    offset: usize,
    length: usize,
    plain_pos: usize,
    history: Ghost<Seq<u8>>,
}

impl View for Window {
    type V = WindowView;

    closed spec fn view(&self) -> WindowView {
        WindowView { bytes: self.history@, plain_pos: self.plain_pos }
    }
}

impl Window {
    /// The buffer holds the bytes appended last, each at its place modulo
    /// the size of the window, and zero where nothing was written.
    pub closed spec fn wf(self) -> bool {
        let h = self.history@;
        &&& self.length == if h.len() < WINDOW_SIZE { h.len() } else { WINDOW_SIZE as nat }
        &&& self.offset == (h.len() - self.length) % (WINDOW_SIZE as int)
        &&& forall|k: int|
            0 <= k < h.len() && h.len() - WINDOW_SIZE <= k ==> self.data@[k % (WINDOW_SIZE as int)] == #[trigger] h[k]
        &&& forall|i: int| h.len() <= i < WINDOW_SIZE ==> #[trigger] self.data@[i] == 0
    }

    /// The number of plaintext bytes produced so far.
    pub fn plain_pos(&self) -> (r: usize)
        ensures
            r == self@.plain_pos,
    {
        self.plain_pos
    }

    fn store(&mut self, byte: u8)
        requires
            old(self).wf(),
        ensures
            final(self).wf(),
            final(self).history@ == old(self).history@.push(byte),
            final(self).plain_pos == old(self).plain_pos,
    {
        let at: usize = (self.offset + self.length) % WINDOW_SIZE;
        self.data[at] = byte;
        if self.length < WINDOW_SIZE {
            self.length += 1;
        } else {
            self.offset = (self.offset + 1) % WINDOW_SIZE;
        }
        proof {
            self.history@ = self.history@.push(byte);
        }
    }

    /// Appends one byte of plaintext.
    pub fn append_byte(&mut self, byte: u8)
        requires
            old(self).wf(),
            old(self)@.plain_pos < usize::MAX,
        ensures
            final(self).wf(),
            final(self)@.bytes == old(self)@.bytes.push(byte),
            final(self)@.plain_pos == old(self)@.plain_pos + 1,
    {
        self.store(byte);
        self.plain_pos += 1;
    }

    /// Appends bytes of plaintext in order.
    pub fn append_bytes(&mut self, bytes: &[u8])
        requires
            old(self).wf(),
            old(self)@.plain_pos + bytes@.len() <= usize::MAX,
        ensures
            final(self).wf(),
            final(self)@.bytes == old(self)@.bytes + bytes@,
            final(self)@.plain_pos == old(self)@.plain_pos + bytes@.len(),
    {
        let mut i: usize = 0;
        while i < bytes.len()
            invariant
                self.wf(),
                i <= bytes@.len(),
                old(self)@.plain_pos + bytes@.len() <= usize::MAX,
                self@.bytes == old(self)@.bytes + bytes@.take(i as int),
                self@.plain_pos == old(self)@.plain_pos + i,
            decreases bytes.len() - i,
        {
            self.append_byte(bytes[i]);
            i += 1;
            assert(self@.bytes =~= old(self)@.bytes + bytes@.take(i as int));
        }
        assert(bytes@.take(bytes@.len() as int) =~= bytes@);
    }

    /// Copies `length` bytes from `distance` places back, byte by byte, and
    /// returns the bytes copied.
    pub fn append_match(&mut self, distance: usize, length: usize) -> (r: Vec<u8>)
        requires
            old(self).wf(),
            distance <= WINDOW_SIZE + old(self)@.bytes.len(),
            old(self)@.plain_pos + length <= usize::MAX,
        ensures
            final(self).wf(),
            final(self)@.bytes == copy_match(old(self)@.bytes, distance as int, length as nat),
            final(self)@.bytes == old(self)@.bytes + r@,
            r@.len() == length,
            final(self)@.plain_pos == old(self)@.plain_pos + length,
    {
        let mut bytes: Vec<u8> = Vec::new();
        let mut pos: usize = (self.offset + self.length + (WINDOW_SIZE - distance % WINDOW_SIZE)) % WINDOW_SIZE;
        let mut i: usize = 0;
        while i < length
            invariant
                self.wf(),
                i <= length,
                old(self)@.plain_pos + length <= usize::MAX,
                self@.plain_pos == old(self)@.plain_pos + i,
                pos == (self.history@.len() + WINDOW_SIZE - distance % WINDOW_SIZE) % (WINDOW_SIZE as int),
                bytes@.len() == i,
                self@.bytes == old(self)@.bytes + bytes@,
                copy_match(self@.bytes, distance as int, (length - i) as nat) == copy_match(
                    old(self)@.bytes,
                    distance as int,
                    length as nat,
                ),
            decreases length - i,
        {
            let byte = self.data[pos];
            proof {
                let h = self.history@;
                let turn = distance as int % (WINDOW_SIZE as int);
                let k = h.len() - if turn == 0 { WINDOW_SIZE as int } else { turn };
                if k >= 0 {
                    assert(self.data@[k % (WINDOW_SIZE as int)] == h[k]);
                } else {
                    assert(self.data@[pos as int] == 0);
                }
                assert(byte == match_source(h, distance as int));
            }
            bytes.push(byte);
            self.append_byte(byte);
            pos = (pos + 1) % WINDOW_SIZE;
            i += 1;
            assert(self@.bytes =~= old(self)@.bytes + bytes@);
        }
        bytes
    }

    /// Preloads a dictionary: its bytes can be copied from, and do not count
    /// as plaintext.
    pub fn append_dictionary(&mut self, bytes: &[u8])
        requires
            old(self).wf(),
        ensures
            final(self).wf(),
            final(self)@.bytes == old(self)@.bytes + bytes@,
            final(self)@.plain_pos == old(self)@.plain_pos,
    {
        let mut i: usize = 0;
        while i < bytes.len()
            invariant
                self.wf(),
                i <= bytes@.len(),
                self@.bytes == old(self)@.bytes + bytes@.take(i as int),
                self@.plain_pos == old(self)@.plain_pos,
            decreases bytes.len() - i,
        {
            self.store(bytes[i]);
            i += 1;
            assert(self@.bytes =~= old(self)@.bytes + bytes@.take(i as int));
        }
        assert(bytes@.take(bytes@.len() as int) =~= bytes@);
    }
}

impl Default for Window {
    /// A window to which nothing has been appended.
    fn default() -> (r: Window)
        ensures
            r.wf(),
            r@.bytes == Seq::<u8>::empty(),
            r@.plain_pos == 0,
    {
        Window { data: [0; 0x10000], offset: 0, length: 0, plain_pos: 0, history: Ghost(Seq::empty()) }
    }
}

} // verus!
