//! An in-memory `BlobBackend`: no network, no kernel, no files.

use vstd::prelude::*;

use crate::backend;
use crate::backend::{check_alignment, check_in_bounds, BackendError, BlobBackend, Op, Request};

verus! {

/// In-memory blob backend.
pub struct MemBackend {
    data: Vec<u8>,
    /// The requests made so far.
    asked: Ghost<Seq<Request>>,
}

/// Why `size` is no size of a store.
pub open spec fn bad_size(size: u64, e: BackendError) -> bool {
    if size % 512 != 0 {
        e matches BackendError::Misaligned { name, value, align } && name@ == "size"@ && value == size
            && align == 512
    } else {
        ||| size == 0 && e is EmptySize
        ||| size > usize::MAX && e == (BackendError::TooLarge { size })
    }
}

/// Why the range `[offset, offset + len)` is refused on a store of `size` bytes.
pub open spec fn bad_range(
    op: Op,
    len_name: Seq<char>,
    offset: u64,
    len: u64,
    size: u64,
    e: BackendError,
) -> bool {
    if offset % 512 != 0 {
        e matches BackendError::Misaligned { name, value, align } && name@ == "offset"@ && value
            == offset && align == 512
    } else if len % 512 != 0 {
        e matches BackendError::Misaligned { name, value, align } && name@ == len_name && value
            == len && align == 512
    } else if offset + len > u64::MAX {
        e == (BackendError::Overflow { op, offset, len })
    } else {
        offset + len > size && e == (BackendError::OutOfBounds { op, offset, len, size })
    }
}

/// The range is aligned and inside a store of `size` bytes.
pub open spec fn good_range(offset: u64, len: u64, size: int) -> bool {
    offset % 512 == 0 && len % 512 == 0 && offset + len <= size
}

fn check_size(size: u64) -> (r: Result<(), BackendError>)
    ensures
        match r {
            Ok(()) => size % 512 == 0 && 0 < size <= usize::MAX,
            Err(e) => bad_size(size, e),
        },
{
    match check_alignment(size, 512, "size") {
        Ok(()) => {},
        Err(e) => {
            return Err(e);
        },
    }
    if size == 0 {
        return Err(BackendError::EmptySize);
    }
    if size > usize::MAX as u64 {
        return Err(BackendError::TooLarge { size });
    }
    Ok(())
}

fn check_range(op: Op, len_name: &str, offset: u64, len: u64, size: u64) -> (r: Result<
    (),
    BackendError,
>)
    ensures
        match r {
            Ok(()) => good_range(offset, len, size as int),
            Err(e) => bad_range(op, len_name@, offset, len, size, e),
        },
{
    match check_alignment(offset, 512, "offset") {
        Ok(()) => {},
        Err(e) => {
            return Err(e);
        },
    }
    match check_alignment(len, 512, len_name) {
        Ok(()) => {},
        Err(e) => {
            return Err(e);
        },
    }
    check_in_bounds(op, offset, len, size)
}

/// A new vector of `len` zero bytes.
fn zeroed(len: usize) -> (v: Vec<u8>)
    ensures
        v@ == backend::zeros(len as nat),
{
    vec![0u8; len]
}

impl MemBackend {
    /// A zeroed store of `size` bytes, a non-zero multiple of 512.
    pub fn new(size: u64) -> (r: Result<Self, BackendError>)
        ensures
            match r {
                Ok(b) => size % 512 == 0 && size > 0 && b.valid() && b.bytes() == backend::zeros(
                    size as nat,
                ) && b.requests() == Seq::<Request>::empty(),
                Err(e) => bad_size(size, e),
            },
    {
        match check_size(size) {
            Ok(()) => Ok(MemBackend { data: zeroed(size as usize), asked: Ghost(Seq::empty()) }),
            Err(e) => Err(e),
        }
    }

    /// Note a request.
    fn note(&mut self, Ghost(request): Ghost<Request>)
        ensures
            final(self).data == old(self).data,
            final(self).asked@ == old(self).asked@.push(request),
    {
        let ghost asked = self.asked@.push(request);
        self.asked = Ghost(asked);
    }

    /// Zero `[offset, offset + len)`.
    fn zero(&mut self, offset: u64, len: u64) -> (r: Result<(), BackendError>)
        ensures
            final(self).asked == old(self).asked,
            match r {
                Ok(()) => good_range(offset, len, old(self).data@.len() as int) && final(self).data@
                    == backend::splice(old(self).data@, offset as int, backend::zeros(len as nat)),
                Err(e) => final(self).data == old(self).data && bad_range(
                    Op::Clear,
                    "len"@,
                    offset,
                    len,
                    old(self).data@.len() as u64,
                    e,
                ),
            },
    {
        match check_range(Op::Clear, "len", offset, len, self.data.len() as u64) {
            Ok(()) => {},
            Err(e) => {
                return Err(e);
            },
        }
        let start: usize = offset as usize;
        let end: usize = (offset + len) as usize;
        let ghost before = self.data@;
        let mut i: usize = start;
        while i < end
            invariant
                start <= i <= end <= before.len(),
                self.data.len() == before.len(),
                self.asked == old(self).asked,
                self.data@ == backend::splice(before, start as int, backend::zeros((i - start) as nat)),
            decreases end - i,
        {
            self.data.set(i, 0);
            i = i + 1;
            assert(self.data@ =~= backend::splice(
                before,
                start as int,
                backend::zeros((i - start) as nat),
            ));
        }
        Ok(())
    }

    /// The bytes of the store.
    pub fn contents(&self) -> (r: &Vec<u8>)
        ensures
            r@ == self.bytes(),
    {
        &self.data
    }
}

/// Memory never fails a fair request, and what it holds is all there is of it.
pub proof fn memory_never_fails(m: MemBackend)
    ensures
        m.valid(),
        m.faults() == 0,
        m.durable() == m.bytes(),
        forall|i: int, b: u8| !#[trigger] m.afloat(i, b),
        m.wipes(),
{
}

impl BlobBackend for MemBackend {
    closed spec fn bytes(&self) -> Seq<u8> {
        self.data@
    }

    closed spec fn durable(&self) -> Seq<u8> {
        self.data@
    }

    closed spec fn valid(&self) -> bool {
        true
    }

    closed spec fn requests(&self) -> Seq<Request> {
        self.asked@
    }

    closed spec fn wipes(&self) -> bool {
        true
    }

    closed spec fn afloat(&self, i: int, b: u8) -> bool {
        false
    }

    closed spec fn gone(&self) -> bool {
        self.data@.len() == 0
    }

    closed spec fn faults(&self) -> nat {
        0
    }

    fn create(&mut self, size: u64) -> (r: Result<(), BackendError>)
        ensures
            match r {
                Ok(()) => size % 512 == 0 && size > 0 && final(self).bytes() == backend::zeros(
                    size as nat,
                ),
                Err(e) => bad_size(size, e) && final(self).bytes() == old(self).bytes() && final(self).valid(),
            },
    {
        self.note(Ghost(Request::Create { size }));
        match check_size(size) {
            Ok(()) => {
                self.data = zeroed(size as usize);
                Ok(())
            },
            Err(e) => Err(e),
        }
    }

    fn read(&mut self, offset: u64, len: u64) -> (r: Result<Vec<u8>, BackendError>)
        ensures
            match r {
                Ok(data) => good_range(offset, len, old(self).bytes().len() as int) && data@ == old(self).bytes().subrange(offset as int, offset + len),
                Err(e) => bad_range(
                    Op::Read,
                    "len"@,
                    offset,
                    len,
                    old(self).bytes().len() as u64,
                    e,
                ),
            },
    {
        self.note(Ghost(Request::Read { offset, len }));
        match check_range(Op::Read, "len", offset, len, self.data.len() as u64) {
            Ok(()) => {},
            Err(e) => {
                return Err(e);
            },
        }
        let mut out: Vec<u8> = Vec::new();
        let start: usize = offset as usize;
        let end: usize = (offset + len) as usize;
        let mut i: usize = start;
        while i < end
            invariant
                start <= i <= end <= self.data@.len(),
                out@ == self.data@.subrange(start as int, i as int),
            decreases end - i,
        {
            out.push(self.data[i]);
            i = i + 1;
            assert(self.data@.subrange(start as int, i as int) =~= self.data@.subrange(
                start as int,
                i - 1,
            ).push(self.data@[i - 1]));
        }
        Ok(out)
    }

    fn write(&mut self, offset: u64, data: &Vec<u8>) -> (r: Result<(), BackendError>)
        ensures
            match r {
                Ok(()) => good_range(offset, data@.len() as u64, old(self).bytes().len() as int),
                Err(e) => final(self).bytes() == old(self).bytes() && bad_range(
                    Op::Write,
                    "data.len()"@,
                    offset,
                    data@.len() as u64,
                    old(self).bytes().len() as u64,
                    e,
                ),
            },
    {
        self.note(Ghost(Request::Write { offset, data: data@ }));
        match check_range(Op::Write, "data.len()", offset, data.len() as u64, self.data.len() as u64) {
            Ok(()) => {},
            Err(e) => {
                return Err(e);
            },
        }
        let start: usize = offset as usize;
        let ghost before = self.data@;
        let mut i: usize = 0;
        while i < data.len()
            invariant
                i <= data@.len(),
                start + data.len() <= before.len(),
                self.data.len() == before.len(),
                self.data@ == backend::splice(before, start as int, data@.take(i as int)),
                self.asked@ == old(self).asked@.push(Request::Write { offset, data: data@ }),
            decreases data@.len() - i,
        {
            self.data.set(start + i, data[i]);
            i = i + 1;
            assert(self.data@ =~= backend::splice(before, start as int, data@.take(i as int)));
        }
        assert(data@.take(data@.len() as int) == data@);
        Ok(())
    }

    fn clear(&mut self, offset: u64, len: u64) -> (r: Result<(), BackendError>)
        ensures
            match r {
                Ok(()) => good_range(offset, len, old(self).bytes().len() as int),
                Err(e) => final(self).bytes() == old(self).bytes() && bad_range(
                    Op::Clear,
                    "len"@,
                    offset,
                    len,
                    old(self).bytes().len() as u64,
                    e,
                ),
            },
    {
        assert(self.data.len() == self.data@.len());
        self.note(Ghost(Request::Clear { offset, len }));
        self.zero(offset, len)
    }

    fn discard(&mut self, offset: u64, len: u64) -> (r: Result<(), BackendError>)
        ensures
            r is Ok <==> good_range(offset, len, old(self).bytes().len() as int),
    {
        assert(self.data.len() == self.data@.len());
        self.note(Ghost(Request::Discard { offset, len }));
        self.zero(offset, len)
    }

    fn flush(&mut self) -> (r: Result<(), BackendError>)
        ensures
            r is Ok,
    {
        self.note(Ghost(Request::Flush));
        Ok(())
    }

    fn resize(&mut self, new_size: u64) -> (r: Result<(), BackendError>)
        ensures
            match r {
                Ok(()) => new_size % 512 == 0 && new_size > 0,
                Err(e) => bad_size(new_size, e) || (new_size < old(self).bytes().len() && e == (
                BackendError::Shrink { size: old(self).bytes().len() as u64, new_size })),
            },
    {
        self.note(Ghost(Request::Resize { new_size }));
        match check_size(new_size) {
            Ok(()) => {},
            Err(e) => {
                return Err(e);
            },
        }
        let size: u64 = self.data.len() as u64;
        if new_size < size {
            return Err(BackendError::Shrink { size, new_size });
        }
        let ghost before = self.data@;
        let mut n: u64 = size;
        while n < new_size
            invariant
                size <= n <= new_size,
                size == before.len(),
                self.data@ == before + backend::zeros((n - size) as nat),
                self.asked@ == old(self).asked@.push(Request::Resize { new_size }),
            decreases new_size - n,
        {
            self.data.push(0);
            n = n + 1;
            assert(self.data@ =~= before + backend::zeros((n - size) as nat));
        }
        Ok(())
    }

    fn delete(&mut self) -> (r: Result<(), BackendError>)
        ensures
            r is Ok,
            final(self).valid(),
            final(self).bytes() == Seq::<u8>::empty(),
    {
        self.note(Ghost(Request::Delete));
        self.data = Vec::new();
        Ok(())
    }

    fn size(&mut self) -> (r: Result<u64, BackendError>)
        ensures
            r is Ok,
    {
        self.note(Ghost(Request::Size));
        Ok(self.data.len() as u64)
    }

    fn snapshot(&mut self) -> (r: Result<String, BackendError>)
        ensures
            r == Err::<String, BackendError>(BackendError::Unsupported),
    {
        self.note(Ghost(Request::Snapshot { id: None }));
        Err(BackendError::Unsupported)
    }
}

/// A size is refused for the reason that it has: no whole sectors, no bytes, or more
/// than there can be.
pub proof fn a_size_is_refused_for_its_reason(size: u64, e: BackendError)
    ensures
        bad_size(size, e) ==> size % 512 != 0 || size == 0 || size > usize::MAX,
        bad_size(size, e) && size % 512 != 0 ==> e is Misaligned,
        bad_size(size, e) && size == 0 ==> e is EmptySize,
        size % 512 == 0 && 0 < size <= usize::MAX ==> !bad_size(size, e),
{
}

/// A range is in order when it is in whole sectors and inside the store; any other is
/// refused for what is wrong with it first.
pub proof fn a_range_of_memory_is_refused_for_its_reason(
    op: Op,
    len_name: Seq<char>,
    offset: u64,
    len: u64,
    size: u64,
    e: BackendError,
)
    ensures
        good_range(offset, len, size as int) <==> offset % 512 == 0 && len % 512 == 0 && offset + len
            <= size,
        good_range(offset, len, size as int) ==> !bad_range(op, len_name, offset, len, size, e),
        bad_range(op, len_name, offset, len, size, e) && offset % 512 != 0 ==> (
        e matches BackendError::Misaligned { value, align, .. } && value == offset && align == 512),
        bad_range(op, len_name, offset, len, size, e) && offset % 512 == 0 && len % 512 != 0 ==> (
        e matches BackendError::Misaligned { value, align, .. } && value == len && align == 512),
        bad_range(op, len_name, offset, len, size, e) && offset % 512 == 0 && len % 512 == 0 ==> e
            == (BackendError::OutOfBounds { op, offset, len, size }) || e == (
        BackendError::Overflow { op, offset, len }),
{
}

} // verus!
