//! Readers: the devices an APFS container is read from.
//!
//! A [`Reader`] is a seekable byte source. To a contract it is a device: a
//! [`Device`] gives the answer of the source to each read at each position,
//! and the error, if any, of a seek to each offset. A reader answers the same
//! read at the same position always in the same way; reading and seeking move
//! its position and change nothing else.

use vstd::prelude::*;

verus! {

/// What kind of failure an I/O operation met.
#[derive(Debug, Clone, Copy, PartialEq, Eq, Structural)]
pub enum ErrorKind {
    /// An entity was not found.
    NotFound,
    /// The operation lacked the necessary privileges.
    PermissionDenied,
    /// The remote server refused the connection.
    ConnectionRefused,
    /// The remote server reset the connection.
    ConnectionReset,
    /// The remote host is not reachable.
    HostUnreachable,
    /// The network with the remote host is not reachable.
    NetworkUnreachable,
    /// The remote server ended the connection.
    ConnectionAborted,
    /// There was no connection yet.
    NotConnected,
    /// A socket address is already in use.
    AddrInUse,
    /// An interface does not exist or its address is not local.
    AddrNotAvailable,
    /// The networking of the system is down.
    NetworkDown,
    /// A pipe was closed.
    BrokenPipe,
    /// An entity already exists.
    AlreadyExists,
    /// The operation needs to block, which was not wanted.
    WouldBlock,
    /// An object was, unexpectedly, not a directory.
    NotADirectory,
    /// An object was, unexpectedly, a directory.
    IsADirectory,
    /// A directory was not empty.
    DirectoryNotEmpty,
    /// The file system or storage medium is read-only.
    ReadOnlyFilesystem,
    /// A handle to a network file is stale.
    StaleNetworkFileHandle,
    /// A parameter was not valid for the operation.
    InvalidInput,
    /// The data or an address in it was not valid.
    InvalidData,
    /// The time of the operation was up.
    TimedOut,
    /// A write of no byte ended the operation.
    WriteZero,
    /// The storage is full.
    StorageFull,
    /// The source cannot seek.
    NotSeekable,
    /// A quota was exceeded.
    QuotaExceeded,
    /// A file is larger than allowed.
    FileTooLarge,
    /// A resource is busy.
    ResourceBusy,
    /// An executable file is busy.
    ExecutableFileBusy,
    /// The operation would lead to a deadlock.
    Deadlock,
    /// The operation would cross devices.
    CrossesDevices,
    /// There are too many links to an object.
    TooManyLinks,
    /// A file name was not valid.
    InvalidFilename,
    /// A list of arguments was too long.
    ArgumentListTooLong,
    /// The operation was interrupted and can be tried again.
    Interrupted,
    /// The platform does not support the operation.
    Unsupported,
    /// The source ended before the requested bytes.
    UnexpectedEof,
    /// There was not enough memory.
    OutOfMemory,
    /// Any other failure.
    Other,
}

/// An I/O error.
#[derive(Debug, Clone, Copy, PartialEq, Eq, Structural)]
pub struct Error {
    /// The kind of the error.
    pub kind: ErrorKind,
}

impl Error {
    /// Creates an error of `kind`.
    pub fn new(kind: ErrorKind) -> (error: Error)
        ensures
            error.kind == kind,
    {
        Error { kind }
    }

    /// The kind of the error.
    pub fn kind(&self) -> (kind: ErrorKind)
        ensures
            kind == self.kind,
    {
        self.kind
    }
}

/// The error of `kind`.
pub open spec fn error_of(kind: ErrorKind) -> Error {
    Error { kind }
}

/// A position to seek to.
#[derive(Debug, Clone, Copy, PartialEq, Eq, Structural)]
pub enum SeekFrom {
    /// An offset from the start of the source.
    Start(u64),
    /// An offset from the end of the source.
    End(i64),
    /// An offset from the current position.
    Current(i64),
}

/// The model of a seekable byte source.
pub struct Device {
    /// The answer to a read of at most so many bytes at a position.
    /// An interruption is none: the source tries the read again itself.
    pub answer: spec_fn(nat, nat) -> Result<Seq<u8>, Error>,
    /// The error of a seek to an offset from the start, if it fails.
    pub fault: spec_fn(u64) -> Option<Error>,
}

/// What reading exactly `len` bytes at `at` gives: the answers of successive
/// reads put together, or the first error among them. An answer without bytes
/// is the end of the source.
pub open spec fn exact(device: Device, at: nat, len: nat) -> Result<Seq<u8>, Error>
    decreases len,
{
    if len == 0 {
        Ok(Seq::empty())
    } else {
        match (device.answer)(at, len) {
            Err(error) => Err(error),
            Ok(part) => if part.len() == 0 || part.len() > len {
                Err(error_of(ErrorKind::UnexpectedEof))
            } else {
                match exact(device, at + part.len(), (len - part.len()) as nat) {
                    Err(error) => Err(error),
                    Ok(rest) => Ok(part + rest),
                }
            },
        }
    }
}

/// What seeking to `offset` and reading exactly `len` bytes there gives.
pub open spec fn read_at(device: Device, offset: u64, len: nat) -> Result<Seq<u8>, Error> {
    match (device.fault)(offset) {
        Some(error) => Err(error),
        None => exact(device, offset as nat, len),
    }
}

/// An exact read that succeeds gives as many bytes as were asked for.
pub proof fn lemma_exact_len(device: Device, at: nat, len: nat)
    ensures
        exact(device, at, len) matches Ok(bytes) ==> bytes.len() == len,
    decreases len,
{
    if len != 0 {
        if let Ok(part) = (device.answer)(at, len) {
            if !(part.len() == 0 || part.len() > len) {
                lemma_exact_len(device, at + part.len(), (len - part.len()) as nat);
            }
        }
    }
}

/// A seekable byte source.
///
/// A source that changes while it is read, or that answers the same read in two
/// ways, has no [`Device`], and what is stated of reads does not hold of it.
pub trait Reader {
    /// The device that the reader reads. Nothing is known of it where a reader
    /// does not say.
    open spec fn device(&self) -> Device {
        arbitrary()
    }

    /// The position of the next read. Nothing is known of it where a reader does
    /// not say.
    open spec fn position(&self) -> nat {
        arbitrary()
    }

    /// Reads at most as many bytes as `buf` holds at the current position,
    /// and moves the position behind them.
    ///
    /// A source that can be interrupted tries the read again itself.
    fn read(&mut self, buf: &mut [u8]) -> (outcome: Result<usize, Error>)
        ensures
            final(self).device() == old(self).device(),
            final(buf)@.len() == old(buf)@.len(),
            match outcome {
                Ok(n) => {
                    &&& n <= old(buf)@.len()
                    &&& (old(self).device().answer)(old(self).position(), old(buf)@.len()) == Ok::<
                        Seq<u8>,
                        Error,
                    >(final(buf)@.take(n as int))
                    &&& final(buf)@.skip(n as int) == old(buf)@.skip(n as int)
                    &&& final(self).position() == old(self).position() + n
                },
                Err(error) => (old(self).device().answer)(old(self).position(), old(buf)@.len())
                    == Err::<Seq<u8>, Error>(error),
            },
    ;

    /// Moves the position, and returns the new one.
    fn seek(&mut self, pos: SeekFrom) -> (outcome: Result<u64, Error>)
        ensures
            final(self).device() == old(self).device(),
            pos matches SeekFrom::Start(offset) ==> match (old(self).device().fault)(offset) {
                Some(error) => outcome == Err::<u64, Error>(error),
                None => outcome == Ok::<u64, Error>(offset),
            },
            outcome matches Ok(target) ==> final(self).position() == target,
    ;
}

/// Reads exactly `buf.len()` bytes at the current position of `reader`.
pub fn read_exact<T: Reader>(reader: &mut T, buf: &mut [u8]) -> (outcome: Result<(), Error>)
    ensures
        final(reader).device() == old(reader).device(),
        final(buf)@.len() == old(buf)@.len(),
        match outcome {
            Ok(()) => exact(old(reader).device(), old(reader).position(), old(buf)@.len()) == Ok::<
                Seq<u8>,
                Error,
            >(final(buf)@) && final(reader).position() == old(reader).position() + old(buf)@.len(),
            Err(error) => exact(old(reader).device(), old(reader).position(), old(buf)@.len())
                == Err::<Seq<u8>, Error>(error),
        },
{
    let len: usize = buf.len();
    let ghost device = reader.device();
    let ghost start = reader.position();
    let ghost whole = exact(device, start, len as nat);
    let mut done: usize = 0;
    while done < len
        invariant
            done <= len,
            buf@.len() == len,
            len == old(buf)@.len(),
            device == old(reader).device(),
            start == old(reader).position(),
            reader.device() == device,
            reader.position() == start + done,
            whole == exact(device, start, len as nat),
            match exact(device, (start + done) as nat, (len - done) as nat) {
                Err(error) => whole == Err::<Seq<u8>, Error>(error),
                Ok(rest) => whole == Ok::<Seq<u8>, Error>(buf@.take(done as int) + rest),
            },
        decreases len - done,
    {
        let ghost before = buf@;
        let (_, tail) = buf.split_at_mut(done);
        let ghost asked = tail@;
        let n: usize = match reader.read(tail) {
            Ok(n) => n,
            Err(error) => return Err(error),
        };
        let ghost got = tail@;
        if n == 0 {
            return Err(Error::new(ErrorKind::UnexpectedEof));
        }
        proof {
            let here = (start + done) as nat;
            let left = (len - done) as nat;
            let part = buf@.subrange(done as int, done + n);
            assert(asked.len() == left);
            assert(buf@.skip(done as int) =~= got);
            assert(got.take(n as int) =~= part);
            assert(buf@.take(done as int) =~= before.take(done as int));
            assert((device.answer)(here, left) == Ok::<Seq<u8>, Error>(part));
            if let Ok(rest) = exact(device, here + n as nat, (left - n) as nat) {
                assert(before.take(done as int) + (part + rest) =~= buf@.take(done + n) + rest);
            }
        }
        done += n;
    }
    proof {
        assert(buf@.take(len as int) + Seq::<u8>::empty() =~= buf@);
    }
    Ok(())
}

/// Seeks to `offset` and fills `buf` with the bytes there.
pub fn read_exact_at<T: Reader>(reader: &mut T, offset: u64, buf: &mut [u8]) -> (outcome: Result<
    (),
    Error,
>)
    ensures
        final(reader).device() == old(reader).device(),
        final(buf)@.len() == old(buf)@.len(),
        match outcome {
            Ok(()) => read_at(old(reader).device(), offset, old(buf)@.len()) == Ok::<
                Seq<u8>,
                Error,
            >(final(buf)@),
            Err(error) => read_at(old(reader).device(), offset, old(buf)@.len()) == Err::<
                Seq<u8>,
                Error,
            >(error),
        },
{
    match reader.seek(SeekFrom::Start(offset)) {
        Ok(_) => read_exact(reader, buf),
        Err(error) => Err(error),
    }
}

/// Seeks to `offset` and reads `len` bytes there.
pub fn read_vec_at<T: Reader>(reader: &mut T, offset: u64, len: usize) -> (outcome: Result<
    Vec<u8>,
    Error,
>)
    ensures
        final(reader).device() == old(reader).device(),
        match outcome {
            Ok(bytes) => read_at(old(reader).device(), offset, len as nat) == Ok::<Seq<u8>, Error>(
                bytes@,
            ),
            Err(error) => read_at(old(reader).device(), offset, len as nat) == Err::<
                Seq<u8>,
                Error,
            >(error),
        },
{
    let mut buf: Vec<u8> = vec![0u8; len];
    match read_exact_at(reader, offset, buf.as_mut_slice()) {
        Ok(()) => Ok(buf),
        Err(error) => Err(error),
    }
}

/// The answer of an in-memory source that holds `data`.
pub open spec fn memory_answer(data: Seq<u8>, at: nat, len: nat) -> Result<Seq<u8>, Error> {
    if at >= data.len() {
        Ok(Seq::empty())
    } else if at + len <= data.len() {
        Ok(data.subrange(at as int, (at + len) as int))
    } else {
        Ok(data.skip(at as int))
    }
}

/// The device of an in-memory source that holds `data`.
pub open spec fn memory_device(data: Seq<u8>) -> Device {
    Device {
        answer: |at: nat, len: nat| memory_answer(data, at, len),
        fault: |offset: u64| None::<Error>,
    }
}

/// Reading inside an in-memory source gives its bytes, and reading past its end
/// fails.
pub proof fn law_memory_read(data: Seq<u8>, offset: u64, len: nat)
    ensures
        read_at(memory_device(data), offset, len) == if len == 0 {
            Ok(Seq::empty())
        } else if offset + len <= data.len() {
            Ok(data.subrange(offset as int, offset + len))
        } else {
            Err(error_of(ErrorKind::UnexpectedEof))
        },
{
    let device = memory_device(data);
    let at = offset as nat;
    reveal_with_fuel(exact, 3);
    if len > 0 {
        let part = memory_answer(data, at, len)->Ok_0;
        assert((device.answer)(at, len) == Ok::<Seq<u8>, Error>(part));
        if offset + len <= data.len() {
            assert(exact(device, at + part.len(), 0) == Ok::<Seq<u8>, Error>(Seq::empty()));
            assert(part + Seq::<u8>::empty() =~= part);
        } else if at < data.len() {
            let left = (len - part.len()) as nat;
            assert((device.answer)(at + part.len(), left) == Ok::<Seq<u8>, Error>(Seq::empty()));
        }
    }
}

/// An in-memory reader.
#[derive(Debug, Clone)]
pub struct Cursor {
    data: Vec<u8>,
    pos: u64,
}

impl Cursor {
    /// The bytes of the source.
    pub closed spec fn data(&self) -> Seq<u8> {
        self.data@
    }

    /// Creates a reader over `data`, at its start.
    pub fn new(data: Vec<u8>) -> (cursor: Cursor)
        ensures
            cursor.data() == data@,
            cursor.position() == 0,
    {
        Cursor { data, pos: 0 }
    }

    /// The bytes of the source.
    pub fn get_ref(&self) -> (data: &Vec<u8>)
        ensures
            data@ == self.data(),
    {
        &self.data
    }

    /// Replaces the byte at `index`.
    pub fn set(&mut self, index: usize, value: u8)
        requires
            index < old(self).data().len(),
        ensures
            final(self).data() == old(self).data().update(index as int, value),
            final(self).position() == old(self).position(),
    {
        self.data[index] = value;
    }
}

impl Reader for Cursor {
    open spec fn device(&self) -> Device {
        memory_device(self.data())
    }

    closed spec fn position(&self) -> nat {
        self.pos as nat
    }

    fn read(&mut self, buf: &mut [u8]) -> (outcome: Result<usize, Error>) {
        let len: usize = self.data.len();
        let start: usize = if self.pos < len as u64 {
            self.pos as usize
        } else {
            len
        };
        let n: usize = if buf.len() < len - start {
            buf.len()
        } else {
            len - start
        };
        let mut i: usize = 0;
        while i < n
            invariant
                i <= n,
                n <= buf@.len(),
                start + n <= self.data@.len(),
                self.data@.len() <= usize::MAX,
                self.data@ == old(self).data@,
                self.pos == old(self).pos,
                buf@.len() == old(buf)@.len(),
                forall|j: int| 0 <= j < i ==> buf@[j] == self.data@[start + j],
                forall|j: int| i <= j < buf@.len() ==> buf@[j] == old(buf)@[j],
            decreases n - i,
        {
            buf[i] = self.data[start + i];
            i += 1;
        }
        proof {
            let asked = old(buf)@.len();
            let whole = memory_answer(self.data@, self.pos as nat, asked);
            assert(whole == Ok::<Seq<u8>, Error>(buf@.take(n as int))) by {
                assert(buf@.take(n as int) =~= whole->Ok_0);
            }
            assert(buf@.skip(n as int) =~= old(buf)@.skip(n as int));
        }
        if n > 0 {
            self.pos = self.pos + n as u64;
        }
        Ok(n)
    }

    fn seek(&mut self, pos: SeekFrom) -> (outcome: Result<u64, Error>)
        ensures
            match seek_target(old(self).position(), Some(old(self).data().len()), pos) {
                Some(target) => outcome == Ok::<u64, Error>(target) && final(self).position()
                    == target,
                None => outcome == Err::<u64, Error>(error_of(ErrorKind::InvalidInput))
                    && final(self).position() == old(self).position(),
            },
    {
        let target: Option<u64> = match pos {
            SeekFrom::Start(offset) => Some(offset),
            SeekFrom::End(delta) => offset_by(self.data.len() as u64, delta),
            SeekFrom::Current(delta) => offset_by(self.pos, delta),
        };
        match target {
            Some(offset) => {
                self.pos = offset;
                Ok(offset)
            },
            None => Err(Error::new(ErrorKind::InvalidInput)),
        }
    }
}

/// `base` moved by `delta`, where that is a valid offset.
pub open spec fn moved(base: int, delta: int) -> Option<u64> {
    if 0 <= base + delta <= u64::MAX {
        Some((base + delta) as u64)
    } else {
        None
    }
}

/// Where a seek leads from the position `at` in a source of length `end`; a
/// source without a length has no position relative to its end.
pub open spec fn seek_target(at: nat, end: Option<nat>, pos: SeekFrom) -> Option<u64> {
    match pos {
        SeekFrom::Start(offset) => Some(offset),
        SeekFrom::Current(delta) => moved(at as int, delta as int),
        SeekFrom::End(delta) => match end {
            Some(len) => moved(len as int, delta as int),
            None => None,
        },
    }
}

/// `base` moved by `delta`, where that is a valid offset.
pub fn offset_by(base: u64, delta: i64) -> (target: Option<u64>)
    ensures
        target == moved(base as int, delta as int),
{
    if delta >= 0 {
        base.checked_add(delta as u64)
    } else {
        let back: u64 = (-(delta + 1)) as u64 + 1;
        base.checked_sub(back)
    }
}

/// Whether every answer of a device gives the bytes of one content.
pub open spec fn is_steady(device: Device, content: spec_fn(nat) -> u8) -> bool {
    forall|at: nat, len: nat, i: int|
        #![trigger (device.answer)(at, len)->Ok_0[i]]
        (device.answer)(at, len) is Ok && 0 <= i < (device.answer)(at, len)->Ok_0.len() ==> (
        device.answer)(at, len)->Ok_0[i] == content((at + i) as nat)
}

/// An exact read of a device with one content gives the bytes of that content.
pub proof fn law_steady_read(device: Device, content: spec_fn(nat) -> u8, at: nat, len: nat)
    requires
        is_steady(device, content),
    ensures
        exact(device, at, len) matches Ok(bytes) ==> bytes == Seq::new(
            len,
            |i: int| content((at + i) as nat),
        ),
    decreases len,
{
    let wanted = Seq::new(len, |i: int| content((at + i) as nat));
    if len == 0 {
        assert(wanted =~= Seq::<u8>::empty());
    } else if let Ok(part) = (device.answer)(at, len) {
        if !(part.len() == 0 || part.len() > len) {
            let left = (len - part.len()) as nat;
            law_steady_read(device, content, at + part.len(), left);
            if let Ok(rest) = exact(device, at + part.len(), left) {
                assert forall|i: int| 0 <= i < len implies (part + rest)[i] == wanted[i] by {
                    if i < part.len() {
                        assert((device.answer)(at, len)->Ok_0[i] == content((at + i) as nat));
                    }
                }
                assert(part + rest =~= wanted);
            }
        }
    }
}

/// An in-memory source has one content: its bytes.
pub proof fn law_memory_is_steady(data: Seq<u8>)
    ensures
        is_steady(memory_device(data), |at: nat| data[at as int]),
{
}

/// A seek goes to the given offset from the start, or as far from the current position or from
/// the end as was asked; it has no target before the start or past the largest offset, nor
/// from an end that is not known.
pub proof fn law_seek_targets(at: nat, len: nat, offset: u64, delta: i64)
    ensures
        seek_target(at, Some(len), SeekFrom::Start(offset)) == Some(offset),
        seek_target(at, Some(len), SeekFrom::Current(delta)) matches Some(target) ==> target - at
            == delta,
        seek_target(at, Some(len), SeekFrom::Current(delta)) is None <==> at + delta < 0 || at
            + delta > u64::MAX,
        seek_target(at, Some(len), SeekFrom::End(delta)) matches Some(target) ==> target - len
            == delta,
        seek_target(at, Some(len), SeekFrom::End(delta)) is None <==> len + delta < 0 || len
            + delta > u64::MAX,
        seek_target(at, None, SeekFrom::End(delta)) is None,
{
}

} // verus!
