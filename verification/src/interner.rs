//! Interned strings: one buffer of bytes, and a span of it per string. A string is
//! allocated first (zeroed) and its bytes are filled in afterwards.
use vstd::prelude::*;

verus! {

/// An identifier for an interned string: its index in allocation order.
pub type InternedStringId = usize;

/// Interned UTF-8 strings, stored back to back in one buffer.
pub struct StringInterner {
    buf: Vec<u8>,
    spans: Vec<(usize, usize)>,
}

/// `n` zero bytes.
pub open spec fn zeros(n: nat) -> Seq<u8> {
    Seq::new(n, |i: int| 0u8)
}

impl StringInterner {
    /// Every span lies in the buffer, and later spans start after earlier ones end.
    pub closed spec fn wf(&self) -> bool {
        &&& forall|i: int|
            0 <= i < self.spans@.len() ==> #[trigger] self.spans@[i].0 + self.spans@[i].1
                <= self.buf@.len()
        &&& forall|i: int, j: int|
            0 <= i < j < self.spans@.len() ==> #[trigger] self.spans@[i].0 + self.spans@[i].1
                <= #[trigger] self.spans@[j].0
    }

    /// The interned strings, by identifier.
    pub closed spec fn strings(&self) -> Seq<Seq<u8>> {
        Seq::new(
            self.spans@.len(),
            |i: int| self.buf@.subrange(self.spans@[i].0 as int, self.spans@[i].0 + self.spans@[i].1),
        )
    }

    /// The number of bytes held.
    pub closed spec fn byte_len(&self) -> nat {
        self.buf@.len()
    }

    /// An interner with no strings.
    pub fn new() -> (r: Self)
        ensures
            r.wf(),
            r.strings() == Seq::<Seq<u8>>::empty(),
            r.byte_len() == 0,
    {
        let r = StringInterner { buf: Vec::new(), spans: Vec::new() };
        assert(r.strings() =~= Seq::<Seq<u8>>::empty());
        r
    }

    /// A string reads back as filled, and later allocations leave it intact: after
    /// string `id` of `before` is filled with `data` and `n` more strings are
    /// allocated, reading `id` gives `data`, and every other earlier string is as it
    /// was.
    pub proof fn lemma_filled_string_survives(before: Seq<Seq<u8>>, id: int, data: Seq<u8>, more: Seq<Seq<u8>>)
        requires
            0 <= id < before.len(),
        ensures
            (before.update(id, data) + more)[id] == data,
            forall|j: int| 0 <= j < before.len() && j != id ==> #[trigger] (before.update(id, data) + more)[j]
                == before[j],
    {
    }

    /// The number of interned strings fits in `usize`.
    pub proof fn lemma_count_fits(&self)
        ensures
            self.strings().len() <= usize::MAX,
    {
        assert(self.spans.len() == self.spans@.len());
    }

    /// The number of bytes held.
    pub fn byte_len_exec(&self) -> (r: usize)
        ensures
            r == self.byte_len(),
    {
        self.buf.len()
    }

    /// The number of interned strings.
    pub fn len(&self) -> (r: usize)
        ensures
            r == self.strings().len(),
    {
        self.spans.len()
    }

    /// Reserve a zeroed string of `len` bytes; gives its identifier and the offset of
    /// its bytes in the buffer.
    pub fn preallocate(&mut self, len: usize) -> (r: (InternedStringId, usize))
        requires
            old(self).wf(),
            old(self).byte_len() + len <= usize::MAX,
        ensures
            final(self).wf(),
            r.0 == old(self).strings().len(),
            r.1 == old(self).byte_len(),
            final(self).strings() == old(self).strings().push(zeros(len as nat)),
            final(self).byte_len() == old(self).byte_len() + len,
    {
        let offset = self.buf.len();
        let ghost old_buf = self.buf@;
        let ghost old_strings = self.strings();
        crate::encoding::append_zeros(&mut self.buf, len);
        let id = self.spans.len();
        self.spans.push((offset, len));
        proof {
            assert forall|i: int| 0 <= i < old_strings.len() implies #[trigger] self.strings()[i]
                == old_strings[i] by {
                assert(self.spans@[i] == old(self).spans@[i]);
                assert(self.buf@.subrange(self.spans@[i].0 as int, self.spans@[i].0 + self.spans@[i].1)
                    =~= old_buf.subrange(self.spans@[i].0 as int, self.spans@[i].0 + self.spans@[i].1));
            }
            assert(self.strings()[id as int] =~= zeros(len as nat));
            assert(self.strings() =~= old_strings.push(zeros(len as nat)));
        }
        (id, offset)
    }

    /// Write the bytes of string `id`, which was allocated with `data`'s length.
    pub fn fill(&mut self, id: InternedStringId, data: &[u8])
        requires
            old(self).wf(),
            id < old(self).strings().len(),
            data@.len() == old(self).strings()[id as int].len(),
        ensures
            final(self).wf(),
            final(self).strings() == old(self).strings().update(id as int, data@),
            final(self).byte_len() == old(self).byte_len(),
    {
        let (offset, len) = self.spans[id];
        proof {
            assert(offset + len <= self.buf.len());
        }
        let ghost old_buf = self.buf@;
        let ghost old_strings = self.strings();
        let mut i: usize = 0;
        while i < len
            invariant
                self.spans@ == old(self).spans@,
                (offset, len) == self.spans@[id as int],
                offset + len <= self.buf.len(),
                self.buf@.len() == old_buf.len(),
                data@.len() == len,
                i <= len,
                forall|k: int| 0 <= k < i ==> self.buf@[offset + k] == data@[k],
                forall|k: int|
                    0 <= k < old_buf.len() && !(offset <= k < offset + len) ==> self.buf@[k]
                        == old_buf[k],
            decreases len - i,
        {
            self.buf.set(offset + i, data[i]);
            i = i + 1;
        }
        proof {
            assert forall|j: int| 0 <= j < old_strings.len() implies #[trigger] self.strings()[j]
                == old_strings.update(id as int, data@)[j] by {
                if j == id {
                    assert(self.strings()[j] =~= data@);
                } else {
                    let (o, l) = self.spans@[j];
                    if j < id {
                        assert(o + l <= offset);
                    } else {
                        assert(offset + len <= o);
                    }
                    assert(self.strings()[j] =~= old_strings[j]);
                }
            }
            assert(self.strings() =~= old_strings.update(id as int, data@));
        }
    }

    /// The bytes of string `id`.
    pub fn get(&self, id: InternedStringId) -> (r: &[u8])
        requires
            self.wf(),
            id < self.strings().len(),
        ensures
            r@ == self.strings()[id as int],
    {
        let (offset, len) = self.spans[id];
        proof {
            assert(offset + len <= self.buf.len());
        }
        vstd::slice::slice_subrange(self.buf.as_slice(), offset, offset + len)
    }
}

} // verus!
