//! The log: a ring buffer that keeps the most recent bytes written to it. All
//! reads happen after all writes, so one offset serves both.
use vstd::prelude::*;

verus! {

/// The outcome of a log operation.
#[derive(Copy, Clone, PartialEq, Eq, Debug, Structural)]
pub enum LogResult {
    /// The log operation was successful.
    Success,
}

impl LogResult {
    /// The numeric value of the result.
    pub fn as_usize(&self) -> (v: usize)
        ensures
            v == 0,
    {
        0
    }

    /// The result with the given numeric value.
    pub fn from_repr(v: usize) -> (r: Option<LogResult>)
        ensures
            r == (if v == 0 {
                Some(LogResult::Success)
            } else {
                None
            }),
    {
        if v == 0 {
            Some(LogResult::Success)
        } else {
            None
        }
    }
}

/// Bytes kept: one more than the limit, so that a reader can tell the log was truncated.
pub const CAPACITY: usize = 1001;

/// Where the bytes of one append go: skip `source_offset` bytes of the source, copy
/// `first_len` bytes to `first_offset` in the buffer, then `second_len` bytes to the
/// start of the buffer (`second_offset`, present only when the write wraps).
#[derive(Copy, Clone, PartialEq, Eq, Debug, Structural)]
pub struct LogSlices {
    pub source_offset: usize,
    pub first_offset: usize,
    pub first_len: usize,
    pub second_offset: Option<usize>,
    pub second_len: usize,
}

/// The ring buffer of log bytes.
pub struct Logs {
    buffer: Vec<u8>,
    offset: usize,
    len: usize,
}

/// The last `k` elements of `s` (all of it when it is shorter).
pub open spec fn keep_last(s: Seq<u8>, k: nat) -> Seq<u8> {
    if s.len() <= k {
        s
    } else {
        s.subrange(s.len() - k, s.len() as int)
    }
}

/// Where an append of `len` bytes goes, from write offset `offset`.
pub open spec fn spec_slices(offset: usize, len: usize) -> LogSlices {
    let source_offset: usize = if len > CAPACITY {
        (len - CAPACITY) as usize
    } else {
        0
    };
    let n: usize = if len > CAPACITY {
        CAPACITY
    } else {
        len
    };
    let space_to_end = CAPACITY - offset;
    if n <= space_to_end {
        LogSlices { source_offset, first_offset: offset, first_len: n, second_offset: None, second_len: 0 }
    } else {
        LogSlices {
            source_offset,
            first_offset: offset,
            first_len: space_to_end as usize,
            second_offset: Some(0),
            second_len: (n - space_to_end) as usize,
        }
    }
}

impl Logs {
    /// The buffer has its full size, the offset is inside it, and until the buffer
    /// fills up the offset is the number of bytes held.
    pub closed spec fn wf(&self) -> bool {
        &&& self.buffer@.len() == CAPACITY
        &&& self.offset < CAPACITY
        &&& self.len <= CAPACITY
        &&& self.len < CAPACITY ==> self.offset == self.len
    }

    /// The bytes held, oldest first.
    pub closed spec fn contents(&self) -> Seq<u8> {
        if self.len < CAPACITY {
            self.buffer@.subrange(0, self.len as int)
        } else {
            self.buffer@.subrange(self.offset as int, CAPACITY as int) + self.buffer@.subrange(
                0,
                self.offset as int,
            )
        }
    }

    /// The write offset.
    pub closed spec fn write_offset(&self) -> usize {
        self.offset
    }

    /// The number of bytes held.
    pub closed spec fn held(&self) -> usize {
        self.len
    }

    /// The whole buffer.
    pub closed spec fn buffer_bytes(&self) -> Seq<u8> {
        self.buffer@
    }

    /// An empty log.
    pub fn new() -> (r: Self)
        ensures
            r.wf(),
            r.contents() == Seq::<u8>::empty(),
            r.write_offset() == 0,
            r.held() == 0,
            r.buffer_bytes() == Seq::new(CAPACITY as nat, |i: int| 0u8),
    {
        let mut buffer: Vec<u8> = Vec::new();
        crate::encoding::append_zeros(&mut buffer, CAPACITY);
        let r = Logs { buffer, offset: 0, len: 0 };
        assert(r.contents() =~= Seq::<u8>::empty());
        r
    }

    /// The write offset.
    pub fn offset(&self) -> (r: usize)
        ensures
            r == self.write_offset(),
    {
        self.offset
    }

    /// The whole ring buffer.
    pub fn buffer(&self) -> (r: &[u8])
        ensures
            r@ == self.buffer_bytes(),
    {
        self.buffer.as_slice()
    }

    /// The number of bytes held.
    pub fn len(&self) -> (r: usize)
        requires
            self.wf(),
        ensures
            r == self.contents().len(),
    {
        self.len
    }

    /// Reserve room for `len` incoming bytes and say where they go; the bytes held
    /// before are those that the new ones do not overwrite.
    pub fn append(&mut self, len: usize) -> (r: LogSlices)
        requires
            old(self).wf(),
        ensures
            final(self).wf(),
            r == spec_slices(old(self).write_offset(), len),
            final(self).write_offset() == (old(self).write_offset() + (if len > CAPACITY {
                CAPACITY
            } else {
                len
            })) % (CAPACITY as int),
            final(self).held() == ({
                let n: int = if len > CAPACITY {
                    CAPACITY as int
                } else {
                    len as int
                };
                if n <= CAPACITY - old(self).write_offset() {
                    if old(self).held() + n < CAPACITY {
                        old(self).held() + n
                    } else {
                        CAPACITY as int
                    }
                } else {
                    CAPACITY as int
                }
            }),
            final(self).buffer_bytes() == old(self).buffer_bytes(),
    {
        let mut len = len;
        let mut source_offset: usize = 0;
        if len > CAPACITY {
            source_offset = len - CAPACITY;
            len = CAPACITY;
        }
        let first_offset = self.offset;
        let space_to_end = CAPACITY - self.offset;
        let r = if len <= space_to_end {
            self.len = if self.len + len < CAPACITY {
                self.len + len
            } else {
                CAPACITY
            };
            LogSlices { source_offset, first_offset, first_len: len, second_offset: None, second_len: 0 }
        } else {
            self.len = CAPACITY;
            LogSlices {
                source_offset,
                first_offset,
                first_len: space_to_end,
                second_offset: Some(0),
                second_len: len - space_to_end,
            }
        };
        self.offset = (self.offset + len) % CAPACITY;
        r
    }

    /// Where the bytes held lie in the buffer, oldest first: an offset and a length,
    /// and a second offset and length when they wrap.
    pub fn read_ranges(&self) -> (r: (usize, usize, Option<usize>, usize))
        requires
            self.wf(),
        ensures
            r.0 + r.1 <= CAPACITY,
            r.2 is Some ==> r.2 == Some(0usize) && r.3 <= CAPACITY,
            r.2 is None ==> r.3 == 0,
            r.1 + r.3 == self.contents().len(),
            self.buffer_bytes().subrange(r.0 as int, r.0 + r.1) + self.buffer_bytes().subrange(0, r.3 as int)
                == self.contents(),
    {
        let read_offset = if self.len < CAPACITY {
            0
        } else {
            self.offset
        };
        if read_offset == 0 {
            proof {
                assert(self.buffer@.subrange(0, self.len as int) + self.buffer@.subrange(0, 0) =~= self.contents());
            }
            (0, self.len, None, 0)
        } else {
            let data_to_end = CAPACITY - read_offset;
            (self.offset, data_to_end, Some(0), self.len - data_to_end)
        }
    }

    /// Append `data` to the log: the log then holds the last `CAPACITY` bytes of
    /// what it held followed by `data`.
    pub fn write(&mut self, data: &[u8])
        requires
            old(self).wf(),
        ensures
            final(self).wf(),
            final(self).contents() == keep_last(old(self).contents() + data@, CAPACITY as nat),
    {
        let ghost before = self.contents();
        let ghost old_buf = self.buffer@;
        let ghost old_offset = self.offset;
        let ghost old_len = self.len;
        let slices = self.append(data.len());
        let ghost off_after = self.offset;
        let ghost len_after = self.len;
        let mut i: usize = 0;
        while i < slices.first_len
            invariant
                slices == spec_slices(old_offset, data@.len() as usize),
                self.buffer@.len() == CAPACITY,
                old_offset < CAPACITY,
                self.offset == off_after,
                self.len == len_after,
                i <= slices.first_len,
                forall|k: int|
                    old_offset <= k < old_offset + i ==> #[trigger] self.buffer@[k] == data@[slices.source_offset
                        + k - old_offset],
                forall|k: int|
                    0 <= k < CAPACITY && !(old_offset <= k < old_offset + i) ==> self.buffer@[k]
                        == old_buf[k],
            decreases slices.first_len - i,
        {
            self.buffer.set(slices.first_offset + i, data[slices.source_offset + i]);
            i = i + 1;
        }
        let mut j: usize = 0;
        while j < slices.second_len
            invariant
                slices == spec_slices(old_offset, data@.len() as usize),
                self.buffer@.len() == CAPACITY,
                old_offset < CAPACITY,
                self.offset == off_after,
                self.len == len_after,
                j <= slices.second_len,
                forall|k: int|
                    old_offset <= k < old_offset + slices.first_len ==> #[trigger] self.buffer@[k]
                        == data@[slices.source_offset + k - old_offset],
                forall|k: int|
                    0 <= k < j ==> #[trigger] self.buffer@[k] == data@[slices.source_offset + slices.first_len + k],
                forall|k: int|
                    0 <= k < CAPACITY && !(old_offset <= k < old_offset + slices.first_len) && !(0 <= k < j)
                        ==> self.buffer@[k] == old_buf[k],
            decreases slices.second_len - j,
        {
            self.buffer.set(j, data[slices.source_offset + slices.first_len + j]);
            j = j + 1;
        }
        proof {
            lemma_write_contents(
                old_buf,
                old_offset,
                old_len,
                data@,
                self.buffer@,
                self.offset,
                self.len,
            );
        }
    }
}

/// The contents after a write are the last `CAPACITY` bytes of the old contents and
/// the new bytes.
#[verifier::spinoff_prover]
#[verifier::rlimit(40)]
proof fn lemma_write_contents(
    old_buf: Seq<u8>,
    old_offset: usize,
    old_len: usize,
    data: Seq<u8>,
    buf: Seq<u8>,
    offset: usize,
    len: usize,
)
    requires
        old_buf.len() == CAPACITY,
        buf.len() == CAPACITY,
        old_offset < CAPACITY,
        old_len <= CAPACITY,
        old_len < CAPACITY ==> old_offset == old_len,
        data.len() <= usize::MAX,
        ({
            let s = spec_slices(old_offset, data.len() as usize);
            let n: int = if data.len() > CAPACITY {
                CAPACITY as int
            } else {
                data.len() as int
            };
            &&& offset == (old_offset + n) % (CAPACITY as int)
            &&& len == (if n <= CAPACITY - old_offset {
                if old_len + n < CAPACITY {
                    old_len + n
                } else {
                    CAPACITY as int
                }
            } else {
                CAPACITY as int
            })
            &&& forall|k: int|
                old_offset <= k < old_offset + s.first_len ==> #[trigger] buf[k] == data[s.source_offset + k
                    - old_offset]
            &&& forall|k: int| 0 <= k < s.second_len ==> #[trigger] buf[k] == data[s.source_offset + s.first_len + k]
            &&& forall|k: int|
                0 <= k < CAPACITY && !(old_offset <= k < old_offset + s.first_len) && !(0 <= k
                    < s.second_len) ==> buf[k] == old_buf[k]
        }),
    ensures
        (if len < CAPACITY {
            buf.subrange(0, len as int)
        } else {
            buf.subrange(offset as int, CAPACITY as int) + buf.subrange(0, offset as int)
        }) == keep_last(
            (if old_len < CAPACITY {
                old_buf.subrange(0, old_len as int)
            } else {
                old_buf.subrange(old_offset as int, CAPACITY as int) + old_buf.subrange(
                    0,
                    old_offset as int,
                )
            }) + data,
            CAPACITY as nat,
        ),
{
    let before = if old_len < CAPACITY {
        old_buf.subrange(0, old_len as int)
    } else {
        old_buf.subrange(old_offset as int, CAPACITY as int) + old_buf.subrange(0, old_offset as int)
    };
    let after = if len < CAPACITY {
        buf.subrange(0, len as int)
    } else {
        buf.subrange(offset as int, CAPACITY as int) + buf.subrange(0, offset as int)
    };
    let all = before + data;
    let expected = keep_last(all, CAPACITY as nat);
    let s = spec_slices(old_offset, data.len() as usize);
    let n: int = if data.len() > CAPACITY {
        CAPACITY as int
    } else {
        data.len() as int
    };
    assert(before.len() == old_len);
    assert(after.len() == expected.len());
    assert forall|i: int| 0 <= i < after.len() implies after[i] == expected[i] by {
        // Position `i` of the result is byte `all.len() - expected.len() + i` of everything written.
        let g = all.len() - expected.len() + i;
        assert(expected[i] == all[g]);
        if len < CAPACITY {
            // Not wrapped: old bytes first, then the new ones right after them.
            assert(old_offset == old_len);
            assert(after[i] == buf[i]);
            if i < old_len {
                assert(all[g] == before[i]);
            } else {
                assert(all[g] == data[i - old_len]);
            }
        } else {
            // The ring is full: read from the write offset around to it.
            let p: int = if i < CAPACITY - offset {
                offset + i
            } else {
                i - (CAPACITY - offset)
            };
            assert(after[i] == buf[p]);
            if g >= old_len {
                // A new byte: `data[g - old_len]`, written at `(old_offset + g - old_len - source_offset) % CAPACITY`.
                let d = g - old_len;
                assert(all[g] == data[d]);
                let e = d - s.source_offset;
                assert(0 <= e < n);
                if e < s.first_len {
                    assert(p == old_offset + e);
                } else {
                    assert(p == e - s.first_len);
                }
            } else {
                // An old byte that survived.
                assert(all[g] == before[g]);
                assert(!(old_offset <= p < old_offset + s.first_len));
                assert(!(0 <= p < s.second_len));
                if old_len < CAPACITY {
                    assert(before[g] == old_buf[g]);
                    assert(p == g);
                } else {
                    let q: int = if g < CAPACITY - old_offset {
                        old_offset + g
                    } else {
                        g - (CAPACITY - old_offset)
                    };
                    assert(before[g] == old_buf[q]);
                    assert(p == q);
                }
            }
        }
    }
    assert(after =~= expected);
}

} // verus!
