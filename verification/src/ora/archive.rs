//! ZIP archives, and reading their entries from any position.

use vstd::prelude::*;

use crate::source::ByteSource;
use crate::types::IoFailure;

verus! {

/// An archive of the `zip` crate.
#[verifier::external_type_specification]
#[verifier::external_body]
#[verifier::reject_recursive_types(R)]
pub struct ExZipArchive<R>(zip::ZipArchive<R>);

/// The file that an archive was opened from.
pub uninterp spec fn zip_file(a: zip::ZipArchive<std::io::Cursor<Vec<u8>>>) -> Seq<u8>;

/// The text of the error that opening a file as an archive gives, if it does, on a machine whose
/// lengths have so many bits.
pub uninterp spec fn zip_error(file: Seq<u8>, bits: u32) -> Option<Seq<char>>;

/// The index of the entry of this name, if there is one, on a machine whose lengths have so many
/// bits.
pub uninterp spec fn zip_index(file: Seq<u8>, name: Seq<char>, bits: u32) -> Option<usize>;

/// The texts of the error that opening an entry gives, if it does, in short and at length, on a
/// machine whose lengths have so many bits.
pub uninterp spec fn zip_entry_error(file: Seq<u8>, index: usize, bits: u32) -> Option<
    (Seq<char>, Seq<char>),
>;

/// The size that an archive states for an entry, on a machine whose lengths have so many bits.
pub uninterp spec fn zip_size(file: Seq<u8>, index: usize, bits: u32) -> u64;

/// The bytes that reading from an entry gives, or the kind and the text of the error. The entry is read into
/// buffers of these lengths, one after the other, and this is what comes of the last one, on a
/// machine whose lengths have so many bits.
pub uninterp spec fn zip_read(file: Seq<u8>, index: usize, lengths: Seq<nat>, bits: u32) -> Result<
    Seq<u8>,
    (std::io::ErrorKind, Seq<char>),
>;

/// The file that an entry is in, its index, and the lengths of the buffers that it has been read
/// into so far.
pub uninterp spec fn entry_reads(f: EntryReader) -> (Seq<u8>, usize, Seq<nat>);

/// Why an entry cannot be opened, in short and at length.
#[derive(Debug, PartialEq, Eq)]
pub struct ZipProblem {
    pub display: String,
    pub debug: String,
}

/// Why not all of an entry can be had.
#[derive(Debug, PartialEq, Eq)]
pub enum EntryFailure {
    /// Reading failed with an error of this kind; the text says why.
    Io(std::io::ErrorKind, String),
    /// The entry is too long to be held in memory.
    TooLong,
}

/// Why not all of an entry can be had, in terms of what texts say.
pub enum EntryFault {
    Io(std::io::ErrorKind, Seq<char>),
    TooLong,
}

/// What has been read of an entry.
#[derive(Debug)]
pub struct ZipEntry {
    /// The size that the archive states.
    pub size: u64,
    /// The bytes that the entry delivers.
    pub bytes: Vec<u8>,
    /// The failure that follows them, if there is one.
    pub failure: Option<EntryFailure>,
}

/// An entry of an archive of the `zip` crate, which is read from front to back.
#[verifier::external_body]
pub struct EntryReader<'a> {
    inner: zip::read::ZipFile<'a, std::io::Cursor<Vec<u8>>>,
}

impl EntryFailure {
    /// What the failure is.
    pub open spec fn fault(self) -> EntryFault {
        match self {
            EntryFailure::Io(kind, text) => EntryFault::Io(kind, text@),
            EntryFailure::TooLong => EntryFault::TooLong,
        }
    }
}

/// What the failure is, if there is one.
pub open spec fn fault_of(failure: Option<EntryFailure>) -> Option<EntryFault> {
    match failure {
        Some(f) => Some(f.fault()),
        None => None,
    }
}

impl ZipEntry {
    /// What has been read.
    pub open spec fn contents(self) -> (u64, Seq<u8>, Option<EntryFault>) {
        (self.size, self.bytes@, fault_of(self.failure))
    }
}

/// Calls `zip::ZipArchive::new`, which reads the directory of an archive. Whether it succeeds, and
/// with which error it fails, depends on the bytes and on the length of a `usize`.
#[verifier::external_body]
pub(crate) fn open_archive(bytes: Vec<u8>) -> (r: Result<
    zip::ZipArchive<std::io::Cursor<Vec<u8>>>,
    String,
>)
    ensures
        match (zip_error(bytes@, usize::BITS), r) {
            (None, Ok(a)) => zip_file(a) == bytes@,
            (Some(text), Err(s)) => s@ == text,
            _ => false,
        },
{
    zip::ZipArchive::new(std::io::Cursor::new(bytes)).map_err(|e| e.to_string())
}

/// Calls `zip::ZipArchive::index_for_name`. Which entry it finds, if any, depends on the file that
/// the archive was opened from, on the name, and on the length of a `usize`.
#[verifier::external_body]
pub(crate) fn entry_index(a: &zip::ZipArchive<std::io::Cursor<Vec<u8>>>, name: &str) -> (r: Option<
    usize,
>)
    ensures
        r == zip_index(zip_file(*a), name@, usize::BITS),
{
    a.index_for_name(name)
}

/// Calls `zip::ZipArchive::by_index`. Whether it succeeds, and with which error it fails, depends on
/// the file that the archive was opened from, on the index, and on the length of a `usize`. Whatever
/// has been read before, the entry is then to be read from its start. The archive stays that of the
/// same file.
#[verifier::external_body]
fn open_entry<'a>(
    a: &'a mut zip::ZipArchive<std::io::Cursor<Vec<u8>>>,
    index: usize,
) -> (r: Result<EntryReader<'a>, ZipProblem>)
    ensures
        zip_file(*final(a)) == zip_file(*old(a)),
        match (zip_entry_error(zip_file(*old(a)), index, usize::BITS), r) {
            (None, Ok(f)) => entry_reads(f) == (zip_file(*old(a)), index, Seq::<nat>::empty()),
            (Some((display, debug)), Err(problem)) => problem.display@ == display
                && problem.debug@ == debug,
            _ => false,
        },
{
    match a.by_index(index) {
        Err(e) => Err(ZipProblem { display: e.to_string(), debug: format!("{:?}", e) }),
        Ok(inner) => Ok(EntryReader { inner }),
    }
}

/// Calls `zip::read::ZipFile::size`, which returns the size that the archive states for an entry. It
/// depends on the file that the archive was opened from, on the index, and on the length of a
/// `usize`.
#[verifier::external_body]
fn entry_size(f: &EntryReader) -> (r: u64)
    ensures
        r == zip_size(entry_reads(*f).0, entry_reads(*f).1, usize::BITS),
{
    f.inner.size()
}

/// Calls `read` of `zip::read::ZipFile`, which reads into the front of a buffer, and returns the
/// number of bytes, or fails with an error of some kind. What that gives depends on the entry, on the
/// lengths of the buffers so far, and on the length of a `usize`.
/// What it leaves behind those bytes in the buffer is not stated, nor is what an error leaves.
#[verifier::external_body]
fn read_entry(f: &mut EntryReader, buf: &mut [u8]) -> (r: Result<
    usize,
    (std::io::ErrorKind, String),
>)
    ensures
        final(buf)@.len() == old(buf)@.len(),
        ({
            let (file, index, lengths) = entry_reads(*old(f));
            let now = lengths.push(old(buf)@.len());
            &&& entry_reads(*final(f)) == (file, index, now)
            &&& match (zip_read(file, index, now, usize::BITS), r) {
                (Ok(bytes), Ok(n)) => {
                    &&& n <= final(buf)@.len()
                    &&& final(buf)@.take(n as int) == bytes
                },
                (Err((kind, text)), Err((k, s))) => k == kind && s@ == text,
                _ => false,
            }
        }),
{
    std::io::Read::read(&mut f.inner, buf).map_err(|e| (e.kind(), e.to_string()))
}

/// The number of bytes that are asked for at a time when all of an entry is read.
pub const CHUNK: usize = 8192;

/// Chunk `k` of an entry, or the kind and the text of the error.
pub open spec fn chunk(file: Seq<u8>, index: usize, k: nat) -> Result<
    Seq<u8>,
    (std::io::ErrorKind, Seq<char>),
> {
    zip_read(file, index, Seq::new(k + 1, |i: int| CHUNK as nat), usize::BITS)
}

/// The first `n` chunks of an entry.
pub open spec fn chunks(file: Seq<u8>, index: usize, n: nat) -> Seq<u8>
    decreases n,
{
    if n == 0 {
        Seq::empty()
    } else {
        chunks(file, index, (n - 1) as nat) + chunk(file, index, (n - 1) as nat)->Ok_0
    }
}

/// Whether an entry ends before chunk `n`: because there is none, because of an error, or because
/// a vector cannot hold it.
pub open spec fn ends_before(file: Seq<u8>, index: usize, n: nat) -> bool {
    match chunk(file, index, n) {
        Err(_) => true,
        Ok(bytes) => bytes.len() == 0 || chunks(file, index, n).len() + bytes.len() > isize::MAX,
    }
}

/// The number of chunks of an entry: that with which it first ends.
pub open spec fn chunk_count(file: Seq<u8>, index: usize) -> nat {
    choose|n: nat|
        #![trigger ends_before(file, index, n)]
        ends_before(file, index, n) && forall|k: nat|
            k < n ==> !#[trigger] ends_before(file, index, k)
}

/// What an entry of an archive holds: the size that the archive states, the bytes that it delivers,
/// and the failure that follows them, if there is one. Where the entry cannot be opened,
/// the texts of the error, in short and at length.
pub open spec fn entry_contents(file: Seq<u8>, index: usize) -> Result<
    (u64, Seq<u8>, Option<EntryFault>),
    (Seq<char>, Seq<char>),
> {
    let n = chunk_count(file, index);
    match zip_entry_error(file, index, usize::BITS) {
        Some(e) => Err(e),
        None => Ok(
            (
                zip_size(file, index, usize::BITS),
                chunks(file, index, n),
                match chunk(file, index, n) {
                    Err((kind, text)) => Some(EntryFault::Io(kind, text)),
                    Ok(bytes) => if bytes.len() == 0 {
                        None
                    } else {
                        Some(EntryFault::TooLong)
                    },
                },
            ),
        ),
    }
}

/// The chunk with which an entry first ends is the last one.
proof fn lemma_chunk_count(file: Seq<u8>, index: usize, n: nat)
    requires
        ends_before(file, index, n),
        forall|k: nat| k < n ==> !#[trigger] ends_before(file, index, k),
    ensures
        chunk_count(file, index) == n,
{
    let m = chunk_count(file, index);
    assert(ends_before(file, index, m));
    if m < n {
        assert(!ends_before(file, index, m));
    }
}

/// Reads all of an entry, chunk by chunk.
pub(crate) fn load_entry(
    a: &mut zip::ZipArchive<std::io::Cursor<Vec<u8>>>,
    index: usize,
) -> (r: Result<ZipEntry, ZipProblem>)
    ensures
        zip_file(*final(a)) == zip_file(*old(a)),
        match (entry_contents(zip_file(*old(a)), index), r) {
            (Ok(contents), Ok(entry)) => {
                &&& entry.contents() == contents
                &&& entry.bytes@.len() <= isize::MAX
            },
            (Err((display, debug)), Err(problem)) => problem.display@ == display
                && problem.debug@ == debug,
            _ => false,
        },
{
    let ghost file = zip_file(*a);
    let mut reader = open_entry(a, index)?;
    let size = entry_size(&reader);
    let mut bytes: Vec<u8> = Vec::new();
    let mut buf: Vec<u8> = Vec::new();
    buf.resize(CHUNK, 0);
    let ghost mut k: nat = 0;
    let failure;
    assert(Seq::<nat>::empty() =~= Seq::new(0, |i: int| CHUNK as nat));
    loop
        invariant_except_break
            entry_reads(reader) == (file, index, Seq::new(k, |i: int| CHUNK as nat)),
            bytes@ == chunks(file, index, k),
            bytes@.len() <= isize::MAX,
            buf@.len() == CHUNK,
            forall|j: nat| j < k ==> !#[trigger] ends_before(file, index, j),
        ensures
            bytes@ == chunks(file, index, k),
            bytes@.len() <= isize::MAX,
            ends_before(file, index, k),
            forall|j: nat| j < k ==> !#[trigger] ends_before(file, index, j),
            fault_of(failure) == (match chunk(file, index, k) {
                Err((kind, text)) => Some(EntryFault::Io(kind, text)),
                Ok(b) => if b.len() == 0 {
                    None
                } else {
                    Some(EntryFault::TooLong)
                },
            }),
        decreases isize::MAX - bytes@.len(),
    {
        let res = read_entry(&mut reader, buf.as_mut_slice());
        assert(Seq::new(k, |i: int| CHUNK as nat).push(CHUNK as nat) =~= Seq::new(
            k + 1,
            |i: int| CHUNK as nat,
        ));
        match res {
            Err((kind, text)) => {
                failure = Some(EntryFailure::Io(kind, text));
                break;
            },
            Ok(n) => {
                if n == 0 {
                    failure = None;
                    break;
                }
                if n > isize::MAX as usize - bytes.len() {
                    failure = Some(EntryFailure::TooLong);
                    break;
                }
                let mut more = vstd::slice::slice_to_vec(
                    vstd::slice::slice_subrange(buf.as_slice(), 0, n),
                );
                assert(more@ =~= buf@.take(n as int));
                bytes.append(&mut more);
                proof {
                    k = k + 1;
                }
            },
        }
    }
    proof {
        lemma_chunk_count(file, index, k);
    }
    Ok(ZipEntry { size, bytes, failure })
}

/// What reading `left` bytes from an entry gives, which has been read into buffers of these lengths
/// before: the bytes, and where they are too few because of an error, that error. Whatever is still
/// missing is asked for at a time.
pub open spec fn start_read(
    file: Seq<u8>,
    index: usize,
    lengths: Seq<nat>,
    left: nat,
) -> (Seq<u8>, Option<EntryFault>)
    decreases left,
{
    let now = lengths.push(left);
    if left == 0 {
        (Seq::empty(), None)
    } else {
        match zip_read(file, index, now, usize::BITS) {
            Err((kind, text)) => (Seq::empty(), Some(EntryFault::Io(kind, text))),
            Ok(bytes) => if 0 < bytes.len() <= left {
                let (more, failure) = start_read(file, index, now, (left - bytes.len()) as nat);
                (bytes + more, failure)
            } else {
                (Seq::empty(), None)
            },
        }
    }
}

/// The first bytes of an entry of an archive, at most `len` of them, the size that the archive states
/// for it, and the failure that follows them, if there is one. Where the entry cannot be
/// opened, the texts of the error, in short and at length.
pub open spec fn start_contents(file: Seq<u8>, index: usize, len: nat) -> Result<
    (u64, Seq<u8>, Option<EntryFault>),
    (Seq<char>, Seq<char>),
> {
    match zip_entry_error(file, index, usize::BITS) {
        Some(e) => Err(e),
        None => {
            let (bytes, failure) = start_read(file, index, Seq::empty(), len);
            Ok((zip_size(file, index, usize::BITS), bytes, failure))
        },
    }
}

/// Reads the first bytes of an entry, `len` of them unless there are fewer.
pub(crate) fn load_start(
    a: &mut zip::ZipArchive<std::io::Cursor<Vec<u8>>>,
    index: usize,
    len: usize,
) -> (r: Result<ZipEntry, ZipProblem>)
    ensures
        zip_file(*final(a)) == zip_file(*old(a)),
        match (start_contents(zip_file(*old(a)), index, len as nat), r) {
            (Ok(contents), Ok(entry)) => entry.contents() == contents,
            (Err((display, debug)), Err(problem)) => problem.display@ == display
                && problem.debug@ == debug,
            _ => false,
        },
{
    let ghost file = zip_file(*a);
    let mut reader = open_entry(a, index)?;
    let size = entry_size(&reader);
    let mut bytes: Vec<u8> = Vec::new();
    let mut left: usize = len;
    let mut failure: Option<EntryFailure> = None;
    let ghost mut lengths = Seq::<nat>::empty();
    let ghost all = start_read(file, index, lengths, len as nat);
    assert(bytes@ + all.0 =~= all.0);
    while left > 0
        invariant_except_break
            entry_reads(reader) == (file, index, lengths),
            failure is None,
            all == ({
                let (more, failure) = start_read(file, index, lengths, left as nat);
                (bytes@ + more, failure)
            }),
        ensures
            all == (bytes@, fault_of(failure)),
        decreases left,
    {
        let mut buf: Vec<u8> = Vec::new();
        buf.resize(left, 0);
        let res = read_entry(&mut reader, buf.as_mut_slice());
        assert(bytes@ + Seq::<u8>::empty() =~= bytes@);
        match res {
            Err((kind, text)) => {
                failure = Some(EntryFailure::Io(kind, text));
                break;
            },
            Ok(n) => {
                if n == 0 {
                    break;
                }
                let mut more = vstd::slice::slice_to_vec(
                    vstd::slice::slice_subrange(buf.as_slice(), 0, n),
                );
                assert(more@ =~= buf@.take(n as int));
                proof {
                    lengths = lengths.push(left as nat);
                    let rest = start_read(file, index, lengths, (left - n) as nat).0;
                    assert(bytes@ + (more@ + rest) =~= (bytes@ + more@) + rest);
                }
                bytes.append(&mut more);
                left = left - n;
            },
        }
    }
    Ok(ZipEntry { size, bytes, failure })
}

/// Where to go in an entry.
#[derive(Debug, Clone, Copy, PartialEq, Eq, Structural)]
pub enum SeekFrom {
    /// So many bytes from the start.
    Start(u64),
    /// So many bytes from the end.
    End(i64),
    /// So many bytes from the current position.
    Current(i64),
}

/// An entry of an archive that can be read from any position.
///
/// Compressed entries can only be read from front to back. To go back, the entry is opened again
/// and read up to the position.
pub struct SeekableArchiveFile {
    pub archive: zip::ZipArchive<std::io::Cursor<Vec<u8>>>,
    /// What the entry delivers.
    pub core: ByteSource<EntryFailure>,
    pub file_index: usize,
    pub position: u64,
    pub file_size: u64,
}

/// The position that is meant, if there is one.
pub open spec fn seek_target(pos: SeekFrom, position: u64, size: u64) -> Option<u64> {
    let target = match pos {
        SeekFrom::Start(offset) => offset as int,
        SeekFrom::End(offset) => size + offset,
        SeekFrom::Current(offset) => position + offset,
    };
    if 0 <= target <= u64::MAX {
        Some(target as u64)
    } else {
        None
    }
}

impl SeekableArchiveFile {
    /// The size, the bytes and the failure of the entry.
    pub open spec fn contents(self) -> (u64, Seq<u8>, Option<EntryFault>) {
        entry_contents(zip_file(self.archive), self.file_index)->Ok_0
    }

    /// What holds of every such file. The failure that follows the bytes is met once.
    pub open spec fn wf(self) -> bool {
        &&& entry_contents(zip_file(self.archive), self.file_index) is Ok
        &&& self.core.wf()
        &&& self.core.data@ == self.contents().1
        &&& self.position == self.core.pos
        &&& self.file_size == self.contents().0
        &&& fault_of(self.core.fault) == self.contents().2 || (self.core.fault is None
            && self.core.pos == self.core.data@.len())
    }

    /// Whether this is the same entry as `before`.
    pub open spec fn same_entry(self, before: SeekableArchiveFile) -> bool {
        &&& self.wf()
        &&& zip_file(self.archive) == zip_file(before.archive)
        &&& self.file_index == before.file_index
    }

    /// Opens an entry of an archive.
    pub fn new(archive: zip::ZipArchive<std::io::Cursor<Vec<u8>>>, file_index: usize) -> (r: Result<
        SeekableArchiveFile,
        String,
    >)
        ensures
            match (entry_contents(zip_file(archive), file_index), r) {
                (Ok(contents), Ok(f)) => {
                    &&& f.wf()
                    &&& zip_file(f.archive) == zip_file(archive)
                    &&& f.file_index == file_index
                    &&& f.position == 0
                    &&& fault_of(f.core.fault) == contents.2
                },
                (Err((_, debug)), Err(text)) => text@ == "failed to open: "@ + debug,
                _ => false,
            },
    {
        let mut archive = archive;
        match load_entry(&mut archive, file_index) {
            Ok(entry) => Ok(
                SeekableArchiveFile {
                    archive,
                    core: ByteSource::new(entry.bytes, entry.failure),
                    file_index,
                    position: 0,
                    file_size: entry.size,
                },
            ),
            Err(problem) => {
                let mut text = "failed to open: ".to_owned();
                text.append(problem.debug.as_str());
                Err(text)
            },
        }
    }

    /// Takes as many bytes as come at once into the front of `buf`.
    pub fn read(&mut self, buf: &mut [u8]) -> (r: Result<usize, IoFailure<EntryFailure>>)
        requires
            old(self).wf(),
        ensures
            final(self).same_entry(*old(self)),
            final(buf)@.len() == old(buf)@.len(),
            match r {
                Ok(n) => {
                    let rest = old(self).core.rest();
                    &&& n <= rest.len()
                    &&& n <= old(buf)@.len()
                    &&& n == 0 ==> rest.len() == 0 || old(buf)@.len() == 0
                    &&& rest.len() == 0 ==> old(self).core.fault is None
                    &&& final(buf)@.take(n as int) == rest.take(n as int)
                    &&& final(buf)@.skip(n as int) == old(buf)@.skip(n as int)
                    &&& final(self).position == old(self).position + n
                    &&& final(self).core == old(self).core.advanced(n as int)
                },
                Err(e) => {
                    &&& old(self).core.rest().len() == 0
                    &&& old(self).core.fault matches Some(f) && e == IoFailure::Reader(f)
                    &&& final(buf)@ == old(buf)@
                    &&& final(self).position == old(self).position
                    &&& final(self).core.fault is None
                },
            },
    {
        let n = self.core.read(buf)?;
        assert(buf@.take(0) =~= old(self).core.rest().take(0));
        assert(buf@.skip(0) =~= buf@);
        assert(old(buf)@.skip(0) =~= old(buf)@);
        match self.position.checked_add(n as u64) {
            Some(position) => {
                self.position = position;
                Ok(n)
            },
            None => Err(IoFailure::Other("seek position overflow".to_owned())),
        }
    }

    /// Goes to a position, and returns it. Positions behind the end cannot be gone to.
    pub fn seek(&mut self, pos: SeekFrom) -> (r: Result<u64, IoFailure<EntryFailure>>)
        requires
            old(self).wf(),
        ensures
            final(self).same_entry(*old(self)),
            match seek_target(pos, old(self).position, old(self).file_size) {
                None => {
                    &&& r matches Err(IoFailure::Other(text)) && text@
                        == "seek position over or underflow"@
                    &&& *final(self) == *old(self)
                },
                Some(target) => if target <= old(self).contents().1.len() {
                    &&& r == Ok::<u64, IoFailure<EntryFailure>>(target)
                    &&& final(self).position == target
                    &&& final(self).core.rest() == old(self).contents().1.skip(target as int)
                } else {
                    &&& final(self).position == old(self).contents().1.len()
                    &&& match old(self).core.fault {
                        Some(f) => r == Err::<u64, IoFailure<EntryFailure>>(IoFailure::Reader(f)),
                        None => r matches Err(IoFailure::Other(text)) && text@
                            == "unexpected eof when seeking"@,
                    }
                },
            },
    {
        let target: i128 = match pos {
            SeekFrom::Start(offset) => offset as i128,
            SeekFrom::End(offset) => self.file_size as i128 + offset as i128,
            SeekFrom::Current(offset) => self.position as i128 + offset as i128,
        };
        if target < 0 || target > u64::MAX as i128 {
            return Err(IoFailure::Other("seek position over or underflow".to_owned()));
        }
        let target_pos = target as u64;
        if target_pos < self.position {
            match load_entry(&mut self.archive, self.file_index) {
                Ok(entry) => {
                    self.core = ByteSource::new(entry.bytes, entry.failure);
                    self.position = 0;
                },
                Err(problem) => {
                    let mut text = "failed to reopen: ".to_owned();
                    text.append(problem.debug.as_str());
                    return Err(IoFailure::Other(text));
                },
            }
        }
        let ghost fault = self.core.fault;
        while self.position < target_pos
            invariant
                self.same_entry(*old(self)),
                self.position <= target_pos || self.position == 0,
                old(self).wf(),
                target_pos >= old(self).position ==> fault == old(self).core.fault,
                self.core.fault == fault,
                target_pos < old(self).position ==> target_pos <= old(self).contents().1.len(),
                seek_target(pos, old(self).position, old(self).file_size) == Some(target_pos),
            decreases target_pos - self.position,
        {
            let mut tmp: Vec<u8> = Vec::new();
            let left = target_pos - self.position;
            tmp.resize(
                if left < 1024 {
                    left as usize
                } else {
                    1024
                },
                0,
            );
            let nr = self.read(tmp.as_mut_slice())?;
            if nr == 0 {
                return Err(IoFailure::Other("unexpected eof when seeking".to_owned()));
            }
        }
        assert(self.core.rest() =~= old(self).contents().1.skip(target_pos as int));
        Ok(target_pos)
    }
}

} // verus!
