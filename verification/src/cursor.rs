//! Bytes in memory with a position at which they are written and read.

use vstd::prelude::*;

verus! {

/// Bytes in memory with a position at which they are written and read.
#[derive(Debug)]
pub struct Cursor {
    bytes: Vec<u8>,
    position: usize,
}

/// `base` with `data` written over it from offset `at` on, extended where `data` is longer.
pub open spec fn overlay(base: Seq<u8>, at: int, data: Seq<u8>) -> Seq<u8> {
    if at + data.len() < base.len() {
        base.take(at) + data + base.skip(at + data.len())
    } else {
        base.take(at) + data
    }
}

impl Cursor {
    /// All bytes, those before the position too.
    pub closed spec fn bytes(&self) -> Seq<u8> {
        self.bytes@
    }

    /// The offset of the next byte to read or write.
    pub closed spec fn offset(&self) -> int {
        self.position as int
    }

    /// The position lies among the bytes or at their end.
    pub open spec fn wf(&self) -> bool {
        0 <= self.offset() <= self.bytes().len()
    }

    /// An empty cursor.
    pub fn new() -> (cursor: Cursor)
        ensures
            cursor.wf(),
            cursor.bytes() == Seq::<u8>::empty(),
            cursor.offset() == 0,
    {
        Cursor { bytes: Vec::new(), position: 0 }
    }

    /// The number of bytes.
    pub fn len(&self) -> (len: usize)
        ensures
            len == self.bytes().len(),
    {
        self.bytes.len()
    }

    /// The offset of the next byte to read or write.
    pub fn position(&self) -> (position: usize)
        ensures
            position == self.offset(),
    {
        self.position
    }

    /// Writes `data` at the position and moves the position behind it.
    pub fn write_all(&mut self, data: &[u8])
        requires
            old(self).wf(),
        ensures
            final(self).wf(),
            final(self).bytes() == overlay(old(self).bytes(), old(self).offset(), data@),
            final(self).offset() == old(self).offset() + data@.len(),
    {
        let start: usize = self.position;
        let ghost base = self.bytes@;
        let mut i: usize = 0;
        while i < data.len()
            invariant
                i <= data@.len(),
                start <= base.len(),
                start == self.position,
                self.bytes@ == overlay(base, start as int, data@.take(i as int)),
            decreases data@.len() - i,
        {
            let len: usize = self.bytes.len();
            if start + i < len {
                self.bytes.set(start + i, data[i]);
            } else {
                self.bytes.push(data[i]);
            }
            assert(self.bytes@ =~= overlay(base, start as int, data@.take(i + 1)));
            i += 1;
        }
        assert(data@.take(i as int) =~= data@);
        let len: usize = self.bytes.len();
        assert(start + data@.len() <= len);
        self.position = start + data.len();
    }

    /// Moves the position to the first byte.
    pub fn rewind(&mut self)
        ensures
            final(self).wf(),
            final(self).bytes() == old(self).bytes(),
            final(self).offset() == 0,
    {
        self.position = 0;
    }

    /// Drops all bytes.
    pub fn clear(&mut self)
        ensures
            final(self).wf(),
            final(self).bytes() == Seq::<u8>::empty(),
            final(self).offset() == 0,
    {
        self.position = 0;
        self.bytes.truncate(0);
    }

    /// Copies bytes from the position into `out` from index `at` on, as many as there are
    /// and as fit, and moves the position behind them.
    pub fn read(&mut self, out: &mut [u8], at: usize) -> (count: usize)
        requires
            old(self).wf(),
            at <= old(out)@.len(),
        ensures
            final(self).wf(),
            final(self).bytes() == old(self).bytes(),
            final(self).offset() == old(self).offset() + count,
            count == if old(out)@.len() - at < old(self).bytes().len() - old(self).offset() {
                old(out)@.len() - at
            } else {
                old(self).bytes().len() - old(self).offset()
            },
            final(out)@ == overlay(
                old(out)@,
                at as int,
                old(self).bytes().subrange(old(self).offset(), old(self).offset() + count),
            ),
    {
        let start: usize = self.position;
        let left: usize = self.bytes.len() - start;
        let space: usize = out.len() - at;
        let count: usize = if space < left { space } else { left };
        let ghost base = out@;
        let mut i: usize = 0;
        while i < count
            invariant
                i <= count,
                start == self.position,
                start + count <= self.bytes@.len() <= usize::MAX,
                at + count <= base.len() <= usize::MAX,
                out@.len() == base.len(),
                self.bytes@ == old(self).bytes@,
                out@ == overlay(base, at as int, self.bytes@.subrange(start as int, start + i)),
            decreases count - i,
        {
            out[at + i] = self.bytes[start + i];
            assert(out@ =~= overlay(
                base,
                at as int,
                self.bytes@.subrange(start as int, start + i + 1),
            ));
            i += 1;
        }
        self.position = start + count;
        count
    }
}

/// Writing over bytes changes those from the position on, as many as are written, and no
/// others.
pub proof fn law_overlay_changes_only_what_is_written(base: Seq<u8>, at: int, data: Seq<u8>)
    requires
        0 <= at <= base.len(),
    ensures
        overlay(base, at, data).len() >= base.len(),
        overlay(base, at, data).len() >= at + data.len(),
        overlay(base, at, data).len() == base.len() || overlay(base, at, data).len() == at
            + data.len(),
        overlay(base, at, data).subrange(at, at + data.len()) == data,
        forall|i: int|
            0 <= i < base.len() && !(at <= i < at + data.len()) ==> #[trigger] overlay(
                base,
                at,
                data,
            )[i] == base[i],
{
    assert(overlay(base, at, data).subrange(at, at + data.len()) =~= data);
}

/// What is written into an empty cursor is read from it once it has been rewound: as many bytes
/// as fit, and the others with the next read.
pub proof fn law_cursor_gives_back_what_was_written(
    empty: Cursor,
    written: &mut Cursor,
    data: &[u8],
    rewound: &mut Cursor,
    first: &mut Cursor,
    out: &mut [u8],
    at: usize,
    count: usize,
    second: &mut Cursor,
    more: &mut [u8],
    others: usize,
)
    requires
        call_ensures(Cursor::new, (), empty),
        *old(written) == empty,
        call_ensures(Cursor::write_all, (written, data), ()),
        *old(rewound) == *final(written),
        call_ensures(Cursor::rewind, (rewound,), ()),
        *old(first) == *final(rewound),
        at <= old(out)@.len(),
        call_ensures(Cursor::read, (first, out, at), count),
        *old(second) == *final(first),
        call_ensures(Cursor::read, (second, more, 0usize), others),
        old(more)@.len() >= data@.len(),
    ensures
        count <= data@.len(),
        at + count <= old(out)@.len(),
        count == data@.len() || at + count == old(out)@.len(),
        final(out)@.len() == old(out)@.len(),
        final(out)@.subrange(at as int, at + count) == data@.take(count as int),
        forall|i: int|
            0 <= i < old(out)@.len() && !(at <= i < at + count) ==> #[trigger] final(out)@[i]
                == old(out)@[i],
        count + others == data@.len(),
        final(more)@.take(others as int) == data@.skip(count as int),
{
    assert(overlay(Seq::<u8>::empty(), 0, data@) =~= data@);
    law_overlay_changes_only_what_is_written(
        old(out)@,
        at as int,
        data@.subrange(0, count as int),
    );
    law_overlay_changes_only_what_is_written(
        old(more)@,
        0,
        data@.subrange(count as int, count + others),
    );
    assert(data@.subrange(0, count as int) =~= data@.take(count as int));
    assert(data@.subrange(count as int, count + others) =~= data@.skip(count as int));
    assert(final(more)@.take(others as int) =~= final(more)@.subrange(0, others as int));
}

} // verus!
