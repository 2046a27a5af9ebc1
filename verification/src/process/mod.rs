//! What the helper processes exchange and decide: the parameter file that
//! names the files to archive, and the decisions of waiting for a process.

use vstd::prelude::*;
use vstd::utf8::encode_utf8;
use crate::zip::format::{le32, le32_bytes, push_le32, read_le32};
use crate::zip::reader::{name_text, string_from_utf8_lossy};

verus! {

/// Why a process that creates an archive failed.
#[derive(Debug, Clone, PartialEq, Eq)]
pub enum ZipProcessError {
    /// An input or output failure, with its message.
    Io(String),
    /// The process ended with this exit code.
    ExitCode(i32),
    /// The process did not end in time.
    Timeout,
    /// The process was killed before.
    AlreadyKilled,
}

/// Why a process that extracts an archive failed.
#[derive(Debug, Clone, PartialEq, Eq)]
pub enum UnzipProcessError {
    /// An input or output failure, with its message.
    Io(String),
    /// The process ended with this exit code.
    ExitCode(i32),
    /// The process did not end in time.
    Timeout,
    /// The process was killed before.
    AlreadyKilled,
}

/// What a look at a process showed.
#[derive(Debug, Clone, Copy, PartialEq, Eq)]
pub enum ProcessPoll {
    /// The process runs.
    Running,
    /// The process ended with success.
    Succeeded,
    /// The process ended without success, with this exit code if it has
    /// one.
    Failed(Option<i32>),
}

/// What to do after a look at a process.
#[derive(Debug, Clone, Copy, PartialEq, Eq)]
pub enum WaitAction {
    /// The process ended with success.
    Done,
    /// The process ended with this exit code.
    Exited(i32),
    /// The time is up.
    TimedOut,
    /// Look again in a tenth of a second.
    Sleep,
}

/// The exit code of a process that ended without one.
pub const EXIT_FAILURE: i32 = 1;

/// The exit status of a program that ends with the error number `eno`: a
/// positive number as it is, a negative one without its sign, and 1 for 0.
pub open spec fn exit_status_of(eno: int) -> int {
    if eno < 0 {
        -eno
    } else if eno == 0 {
        1
    } else {
        eno
    }
}

/// The exit status of a program that ends with the error number `eno`.
pub fn exit_status(eno: i32) -> (status: i32)
    requires
        eno > i32::MIN,
    ensures
        status == exit_status_of(eno as int),
        status >= 1,
{
    if eno < 0 {
        -eno
    } else if eno == 0 {
        1
    } else {
        eno
    }
}

/// What to do after a look at a process, `elapsed_ms` milliseconds after
/// waiting began and with `timeout_ms` milliseconds to wait at most, if
/// there is a limit: a process that ended gives its result; one that runs is
/// looked at again unless the time is up.
pub fn wait_step(poll: ProcessPoll, elapsed_ms: u64, timeout_ms: Option<u64>) -> (a: WaitAction)
    ensures
        a == (match poll {
            ProcessPoll::Succeeded => WaitAction::Done,
            ProcessPoll::Failed(Some(code)) => WaitAction::Exited(code),
            ProcessPoll::Failed(None) => WaitAction::Exited(1),
            ProcessPoll::Running => match timeout_ms {
                Some(limit) => if elapsed_ms >= limit {
                    WaitAction::TimedOut
                } else {
                    WaitAction::Sleep
                },
                None => WaitAction::Sleep,
            },
        }),
{
    match poll {
        ProcessPoll::Succeeded => WaitAction::Done,
        ProcessPoll::Failed(Some(code)) => WaitAction::Exited(code),
        ProcessPoll::Failed(None) => WaitAction::Exited(EXIT_FAILURE),
        ProcessPoll::Running => match timeout_ms {
            Some(limit) => {
                if elapsed_ms >= limit {
                    WaitAction::TimedOut
                } else {
                    WaitAction::Sleep
                }
            },
            None => WaitAction::Sleep,
        },
    }
}

/// The names one after the other, each followed by a NUL byte.
pub open spec fn nul_joined(names: Seq<String>) -> Seq<u8>
    decreases names.len(),
{
    if names.len() == 0 {
        Seq::empty()
    } else {
        nul_joined(names.drop_last()) + encode_utf8(names.last()@) + seq![0u8]
    }
}

/// `n` zero bytes.
pub open spec fn zeros(n: int) -> Seq<u8> {
    Seq::new(n as nat, |i: int| 0u8)
}

/// The parameter file for the given files: their number; the length of the
/// names in the archive and the names, each with a NUL byte behind it; the
/// same for the names on disk, which are the same names; one zero byte for
/// each file, which says that it is no directory; and eight zero bytes for
/// each file, its modification time. The numbers take four bytes, the lowest
/// first.
pub open spec fn params_bytes(names: Seq<String>) -> Seq<u8> {
    le32_bytes(names.len() as int) + le32_bytes(nul_joined(names).len() as int) + nul_joined(names)
        + le32_bytes(nul_joined(names).len() as int) + nul_joined(names) + zeros(
        names.len() as int,
    ) + zeros(8 * names.len() as int)
}

/// The parameter file for the given files; `None` when their number or the
/// length of their names is more than 31 bits count.
pub fn params_file_bytes(files: &[String]) -> (r: Option<Vec<u8>>)
    ensures
        r.is_some() <==> files@.len() <= 0x7FFF_FFFF && nul_joined(files@).len() <= 0x7FFF_FFFF,
        r.is_some() ==> r.unwrap()@ == params_bytes(files@),
{
    if files.len() > 0x7FFF_FFFF {
        return None;
    }
    let mut joined: Vec<u8> = Vec::new();
    let mut i: usize = 0;
    proof {
        assert(files@.take(0) =~= Seq::<String>::empty());
    }
    while i < files.len()
        invariant
            i <= files@.len(),
            joined@ == nul_joined(files@.take(i as int)),
            joined@.len() <= 0x7FFF_FFFF,
        decreases files@.len() - i,
    {
        let name = files[i].as_str().as_bytes();
        proof {
            assert(files@.take(i + 1).drop_last() =~= files@.take(i as int));
            assert(files@.take(i + 1).last() == files@[i as int]);
        }
        if name.len() >= 0x7FFF_FFFF || joined.len() + name.len() + 1 > 0x7FFF_FFFF {
            proof {
                lemma_nul_joined_grows(files@, i + 1, files@.len() as int);
                assert(files@.take(files@.len() as int) =~= files@);
                assert(nul_joined(files@.take(i + 1)).len() == joined@.len() + name@.len() + 1);
            }
            return None;
        }
        let ghost before = joined@;
        joined.extend_from_slice(name);
        joined.push(0);
        proof {
            assert(joined@ =~= before + encode_utf8(files@[i as int]@) + seq![0u8]);
        }
        i = i + 1;
    }
    proof {
        assert(files@.take(i as int) =~= files@);
    }
    let mut out: Vec<u8> = Vec::new();
    push_le32(&mut out, files.len() as u32);
    push_le32(&mut out, joined.len() as u32);
    out.extend_from_slice(joined.as_slice());
    push_le32(&mut out, joined.len() as u32);
    out.extend_from_slice(joined.as_slice());
    let mut k: usize = 0;
    let ghost head = out@;
    while k < files.len()
        invariant
            k <= files@.len(),
            out@ =~= head + zeros(k as int),
        decreases files@.len() - k,
    {
        out.push(0);
        k = k + 1;
    }
    let ghost flags = out@;
    let mut k: usize = 0;
    while k < files.len()
        invariant
            k <= files@.len(),
            out@ =~= flags + zeros(8 * k),
        decreases files@.len() - k,
    {
        out.push(0);
        out.push(0);
        out.push(0);
        out.push(0);
        out.push(0);
        out.push(0);
        out.push(0);
        out.push(0);
        k = k + 1;
    }
    proof {
        assert(out@ =~= params_bytes(files@));
    }
    Some(out)
}

/// The joined names of more files are no shorter.
pub proof fn lemma_nul_joined_grows(names: Seq<String>, i: int, n: int)
    requires
        0 <= i <= n <= names.len(),
    ensures
        nul_joined(names.take(i)).len() <= nul_joined(names.take(n)).len(),
    decreases n - i,
{
    if i < n {
        lemma_nul_joined_grows(names, i, n - 1);
        assert(names.take(n).drop_last() =~= names.take(n - 1));
    }
}

/// What a parameter file holds.
#[derive(Debug, Clone, PartialEq, Eq)]
pub struct ParamsFileData {
    /// The names of the entries.
    pub keys: Vec<String>,
    /// The names of the files on disk.
    pub filenames: Vec<String>,
    /// For each file whether it is a directory.
    pub is_directory: Vec<bool>,
    /// For each file the eight bytes of its modification time, a 64-bit
    /// floating-point number of seconds, as one number, the first byte
    /// lowest.
    pub mtime_bits: Vec<u64>,
}

/// Why a parameter file cannot be read.
#[derive(Debug, Clone, Copy, PartialEq, Eq)]
pub enum ParamsError {
    /// The file ends before its content does.
    Truncated,
    /// The number of files is negative.
    NegativeCount,
    /// The length of the names in the archive is negative.
    NegativeKeysLength,
    /// The length of the names on disk is negative.
    NegativeFilenamesLength,
}

/// Where the first NUL byte stands in `buf` from `from` on; the length of
/// `buf` if none does.
pub open spec fn next_nul(buf: Seq<u8>, from: int) -> int
    decreases buf.len() - from,
{
    if from < 0 || from >= buf.len() {
        buf.len() as int
    } else if buf[from] == 0 {
        from
    } else {
        next_nul(buf, from + 1)
    }
}

/// The byte strings that end at the first `expected` NUL bytes of `buf`
/// from `from` on; where a NUL byte is missing, an empty string takes the
/// place of the rest.
pub open spec fn split_nul(buf: Seq<u8>, from: int, expected: int) -> Seq<Seq<u8>>
    decreases expected,
{
    if expected <= 0 {
        Seq::empty()
    } else if next_nul(buf, from) >= buf.len() {
        seq![Seq::empty()]
    } else {
        seq![buf.subrange(from, next_nul(buf, from))] + split_nul(
            buf,
            next_nul(buf, from) + 1,
            expected - 1,
        )
    }
}

/// The strings as the byte strings that they were read from.
pub open spec fn read_as(strings: Seq<String>, parts: Seq<Seq<u8>>) -> bool {
    &&& strings.len() == parts.len()
    &&& forall|i: int| 0 <= i < strings.len() ==> (#[trigger] strings[i])@ == name_text(parts[i])
}

/// Splits `buf` at NUL bytes into at most `expected` strings.
pub fn split_nul_strings(buf: &[u8], expected: usize) -> (out: Vec<String>)
    ensures
        read_as(out@, split_nul(buf@, 0, expected as int)),
{
    let mut out: Vec<String> = Vec::new();
    let mut start: usize = 0;
    let mut done: usize = 0;
    let ghost mut parts: Seq<Seq<u8>> = Seq::empty();
    while done < expected
        invariant
            done <= expected,
            start <= buf@.len(),
            read_as(out@, parts),
            split_nul(buf@, 0, expected as int) =~= parts + split_nul(
                buf@,
                start as int,
                expected - done,
            ),
        decreases expected - done,
    {
        let mut end: usize = start;
        while end < buf.len() && buf[end] != 0
            invariant
                start <= end <= buf@.len(),
                next_nul(buf@, start as int) == next_nul(buf@, end as int),
            decreases buf@.len() - end,
        {
            end = end + 1;
        }
        if end >= buf.len() {
            out.push(string_from_utf8_lossy(vstd::slice::slice_subrange(buf, 0, 0)));
            proof {
                assert(buf@.subrange(0, 0) =~= Seq::<u8>::empty());
                let more = parts.push(Seq::empty());
                assert(parts + seq![Seq::<u8>::empty()] =~= more);
                parts = more;
            }
            return out;
        }
        out.push(string_from_utf8_lossy(vstd::slice::slice_subrange(buf, start, end)));
        proof {
            let part = buf@.subrange(start as int, end as int);
            let more = parts.push(part);
            assert(parts + (seq![part] + split_nul(buf@, end + 1, expected - done - 1)) =~= more
                + split_nul(buf@, end + 1, expected - done - 1));
            parts = more;
        }
        start = end + 1;
        done = done + 1;
    }
    proof {
        assert(parts + Seq::<Seq<u8>>::empty() =~= parts);
    }
    out
}

/// The content of a parameter file as plain values: the number of files,
/// the bytes of the two lists of names, the flags and the times.
pub struct ParamsLayout {
    pub count: int,
    pub keys: Seq<u8>,
    pub filenames: Seq<u8>,
    pub flags: Seq<u8>,
    pub times: Seq<u8>,
}

/// How a parameter file is laid out, or why it cannot be read: numbers of
/// four bytes before the names must not be negative, and the file must not
/// end before the times do.
pub open spec fn params_layout(data: Seq<u8>) -> Result<ParamsLayout, ParamsError> {
    if data.len() < 4 {
        Err(ParamsError::Truncated)
    } else if le32(data, 0) > 0x7FFF_FFFF {
        Err(ParamsError::NegativeCount)
    } else if data.len() < 8 {
        Err(ParamsError::Truncated)
    } else if le32(data, 4) > 0x7FFF_FFFF {
        Err(ParamsError::NegativeKeysLength)
    } else if data.len() < 12 + le32(data, 4) {
        Err(ParamsError::Truncated)
    } else if le32(data, 8 + le32(data, 4)) > 0x7FFF_FFFF {
        Err(ParamsError::NegativeFilenamesLength)
    } else {
        let n = le32(data, 0);
        let keys_at = 8;
        let names_at = 12 + le32(data, 4);
        let flags_at = names_at + le32(data, 8 + le32(data, 4));
        let times_at = flags_at + n;
        if data.len() < times_at + 8 * n {
            Err(ParamsError::Truncated)
        } else {
            Ok(
                ParamsLayout {
                    count: n,
                    keys: data.subrange(keys_at, keys_at + le32(data, 4)),
                    filenames: data.subrange(names_at, flags_at),
                    flags: data.subrange(flags_at, times_at),
                    times: data.subrange(times_at, times_at + 8 * n),
                },
            )
        }
    }
}

/// The eight bytes at `at` as one number, the first byte lowest.
pub open spec fn le64(data: Seq<u8>, at: int) -> int {
    le32(data, at) + 0x1_0000_0000 * le32(data, at + 4)
}

/// `parsed` holds what a parameter file with the layout `layout` says.
pub open spec fn holds(parsed: ParamsFileData, layout: ParamsLayout) -> bool {
    &&& read_as(parsed.keys@, split_nul(layout.keys, 0, layout.count))
    &&& read_as(parsed.filenames@, split_nul(layout.filenames, 0, layout.count))
    &&& parsed.is_directory@.len() == layout.count
    &&& forall|i: int|
        0 <= i < layout.count ==> #[trigger] parsed.is_directory@[i] == (layout.flags[i] != 0)
    &&& parsed.mtime_bits@.len() == layout.count
    &&& forall|i: int|
        0 <= i < layout.count ==> #[trigger] parsed.mtime_bits@[i] == le64(layout.times, 8 * i)
}

/// Reads a parameter file.
pub fn read_params_file(data: &[u8]) -> (r: Result<ParamsFileData, ParamsError>)
    ensures
        match params_layout(data@) {
            Ok(layout) => r.is_ok() && holds(r.unwrap(), layout),
            Err(e) => r == Err::<ParamsFileData, ParamsError>(e),
        },
{
    let len: usize = data.len();
    if len < 4 {
        return Err(ParamsError::Truncated);
    }
    let count: u32 = read_le32(data, 0);
    if count > 0x7FFF_FFFF {
        return Err(ParamsError::NegativeCount);
    }
    if len < 8 {
        return Err(ParamsError::Truncated);
    }
    let keys_len: u32 = read_le32(data, 4);
    if keys_len > 0x7FFF_FFFF {
        return Err(ParamsError::NegativeKeysLength);
    }
    if (len as u64) < 12 + keys_len as u64 {
        return Err(ParamsError::Truncated);
    }
    let names_len: u32 = read_le32(data, 8 + keys_len as usize);
    if names_len > 0x7FFF_FFFF {
        return Err(ParamsError::NegativeFilenamesLength);
    }
    let n: usize = count as usize;
    let names_at: u64 = 12 + keys_len as u64;
    let flags_at: u64 = names_at + names_len as u64;
    let times_at: u64 = flags_at + count as u64;
    if (len as u64) < times_at + 8 * (count as u64) {
        return Err(ParamsError::Truncated);
    }
    let keys = split_nul_strings(
        vstd::slice::slice_subrange(data, 8, 8 + keys_len as usize),
        n,
    );
    let filenames = split_nul_strings(
        vstd::slice::slice_subrange(data, names_at as usize, flags_at as usize),
        n,
    );
    let flags = vstd::slice::slice_subrange(data, flags_at as usize, times_at as usize);
    let times = vstd::slice::slice_subrange(data, times_at as usize, times_at as usize + 8 * n);
    let mut is_directory: Vec<bool> = Vec::new();
    let mut mtime_bits: Vec<u64> = Vec::new();
    let mut i: usize = 0;
    let total: usize = times.len();
    while i < n
        invariant
            i <= n,
            flags@.len() == n,
            times@.len() == 8 * n,
            total == 8 * n,
            is_directory@.len() == i,
            mtime_bits@.len() == i,
            forall|j: int| 0 <= j < i ==> #[trigger] is_directory@[j] == (flags@[j] != 0),
            forall|j: int| 0 <= j < i ==> #[trigger] mtime_bits@[j] == le64(times@, 8 * j),
        decreases n - i,
    {
        is_directory.push(flags[i] != 0);
        let low: u64 = read_le32(times, 8 * i) as u64;
        let high: u64 = read_le32(times, 8 * i + 4) as u64;
        mtime_bits.push(low + 0x1_0000_0000 * high);
        i = i + 1;
    }
    Ok(ParamsFileData { keys, filenames, is_directory, mtime_bits })
}

} // verus!
