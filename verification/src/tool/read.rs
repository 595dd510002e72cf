//! The `read` tool: a window of a file's lines, bounded in the lines it
//! returns, in the bytes it scans to find them and in the bytes it
//! returns.
//!
//! The file is read chunk by chunk by the caller; a [`Scan`] decides,
//! chunk after chunk, what to keep and whether to go on, and words the
//! answer.

use vstd::prelude::*;

use crate::output::str_bytes;
use crate::text::{
    byte_len, chars_of, decimal, decode_lossy, extend, lemma_byte_len_concat, lossy_utf8,
    push_decimal, push_str, string_of,
};

verus! {

/// The buffer a read refills as it scans the file.
pub const READ_CHUNK_SIZE: usize = 65536;

/// How many lines a read can return when the call omits a `limit`.
pub const DEFAULT_READ_LIMIT: u64 = 1000;

/// The most lines a caller may request; a larger `limit` is clamped to it.
pub const MAX_READ_LIMIT: u64 = 10000;

/// How much of the file a read is willing to scan to find the requested
/// lines; bounds the work, not the output, which is capped by
/// `MAX_OUTPUT_BYTES`.
pub const MAX_READ_BYTES: u64 = 262144;

/// How much line content a read may return, so a single tool result
/// cannot consume unbounded context.
pub const MAX_OUTPUT_BYTES: u64 = 65536;

/// A call of the `read` tool: the path of a file, the 1-based line to
/// start at and how many lines to return.
#[derive(Debug, Clone)]
pub struct Read {
    pub path: String,
    pub offset: Option<u64>,
    pub limit: Option<u64>,
}

/// Why a read stopped.
#[derive(Debug, Clone, Copy, PartialEq, Eq, Structural)]
pub enum Stop {
    EndOfFile,
    LineLimit { has_more: bool },
    ByteLimit,
    OutputLimit,
}

/// Where a scan stands: it wants the next chunk, it wants to know whether
/// the file goes on, or it is done.
#[derive(Debug, Clone, Copy, PartialEq, Eq, Structural)]
pub enum Next {
    Read,
    Peek,
    Done,
}

/// The scan of a file for the lines a read asked for.
#[derive(Debug, Clone)]
pub struct Scan {
    offset: u64,
    limit: u64,
    stop: Stop,
    next: Next,
    /// Whether a peek is to tell whether lines follow the last one
    /// returned, rather than whether the scan budget cut the file.
    peek_lines: bool,
    scanned: u64,
    terminated: u64,
    emitted: u64,
    pending: Vec<u8>,
    output: Vec<char>,
    output_bytes: u64,
}

/// A scan, by its parts: the lines asked for, why and whether it
/// stopped, the bytes scanned, the lines ended and returned, the bytes
/// of the line not yet ended and the text kept.
pub struct ScanView {
    pub offset: u64,
    pub limit: u64,
    pub stop: Stop,
    pub next: Next,
    pub peek_lines: bool,
    pub scanned: u64,
    pub terminated: u64,
    pub emitted: u64,
    pub pending: Seq<u8>,
    pub output: Seq<char>,
}

impl View for Scan {
    type V = ScanView;

    closed spec fn view(&self) -> ScanView {
        ScanView {
            offset: self.offset,
            limit: self.limit,
            stop: self.stop,
            next: self.next,
            peek_lines: self.peek_lines,
            scanned: self.scanned,
            terminated: self.terminated,
            emitted: self.emitted,
            pending: self.pending@,
            output: self.output@,
        }
    }
}

/// The bytes of a line without the `\r` of a `\r\n` ending.
pub open spec fn without_cr(bytes: Seq<u8>) -> Seq<u8> {
    if bytes.len() > 0 && bytes.last() == 13 {
        bytes.drop_last()
    } else {
        bytes
    }
}

/// Whether `line` and its newline would push `output` past the output
/// limit.
pub open spec fn overflows(output: Seq<char>, line: Seq<char>) -> bool {
    byte_len(output) + byte_len(line) + 1 > MAX_OUTPUT_BYTES
}

/// The scan after one more byte of the file: a newline ends a line,
/// which is returned if it is in range and fits in the output; any other
/// byte joins the line being read.
pub open spec fn take_byte(s: ScanView, b: u8) -> ScanView {
    if b == 10 {
        let terminated = (s.terminated + 1) as u64;
        if terminated >= s.offset {
            let line = lossy_utf8(without_cr(s.pending));
            if overflows(s.output, line) {
                ScanView {
                    terminated,
                    stop: Stop::OutputLimit,
                    pending: without_cr(s.pending),
                    ..s
                }
            } else {
                ScanView {
                    terminated,
                    output: s.output + line.push('\n'),
                    emitted: (s.emitted + 1) as u64,
                    pending: seq![],
                    ..s
                }
            }
        } else {
            ScanView { terminated, pending: seq![], ..s }
        }
    } else {
        ScanView { pending: s.pending.push(b), ..s }
    }
}

/// Whether a scan must take no more bytes: the output is full, or the
/// lines asked for are all there.
pub open spec fn halted(s: ScanView) -> bool {
    s.stop == Stop::OutputLimit || s.emitted == s.limit
}

/// The scan after the bytes `bytes`, taken one by one until it halts,
/// with how many it took.
pub open spec fn take_bytes(s: ScanView, bytes: Seq<u8>) -> (ScanView, nat)
    decreases bytes.len(),
{
    if bytes.len() == 0 {
        (s, 0)
    } else {
        let t = take_byte(s, bytes[0]);
        if halted(t) {
            (t, 1)
        } else {
            let (u, n) = take_bytes(t, bytes.drop_first());
            (u, n + 1)
        }
    }
}

/// The scan after the next chunk of the file; an empty chunk is its end.
/// Where the lines asked for are all there and the chunk is used up, or
/// the scan budget is spent, whether the file goes on is the question.
pub open spec fn fed(s: ScanView, chunk: Seq<u8>) -> ScanView {
    if chunk.len() == 0 {
        ScanView { next: Next::Done, ..s }
    } else {
        let (t, taken) = take_bytes(ScanView { scanned: (s.scanned + chunk.len()) as u64, ..s }, chunk);
        if t.stop == Stop::OutputLimit {
            ScanView { next: Next::Done, ..t }
        } else if t.emitted == t.limit {
            if taken < chunk.len() {
                ScanView { stop: Stop::LineLimit { has_more: true }, next: Next::Done, ..t }
            } else {
                ScanView { next: Next::Peek, peek_lines: true, ..t }
            }
        } else if t.scanned >= MAX_READ_BYTES {
            ScanView { next: Next::Peek, peek_lines: false, ..t }
        } else {
            t
        }
    }
}

/// The scan once it knows whether the file goes on past what it read.
pub open spec fn peeked(s: ScanView, more: bool) -> ScanView {
    if s.peek_lines {
        ScanView { stop: Stop::LineLimit { has_more: more }, next: Next::Done, ..s }
    } else {
        ScanView {
            stop: if more {
                Stop::ByteLimit
            } else {
                Stop::EndOfFile
            },
            next: Next::Done,
            ..s
        }
    }
}

/// The scan with the final line, which may not end with a newline, taken
/// in where the file ended.
pub open spec fn flushed(s: ScanView) -> ScanView {
    if s.stop == Stop::EndOfFile && s.pending.len() > 0 {
        let line = lossy_utf8(without_cr(s.pending));
        let terminated = (s.terminated + 1) as u64;
        if overflows(s.output, line) {
            ScanView { stop: Stop::OutputLimit, terminated, ..s }
        } else if terminated >= s.offset {
            ScanView {
                output: s.output + line.push('\n'),
                emitted: (s.emitted + 1) as u64,
                terminated,
                ..s
            }
        } else {
            ScanView { terminated, ..s }
        }
    } else {
        s
    }
}

/// The line to continue at.
pub open spec fn continuation(s: ScanView) -> nat {
    (s.offset + s.emitted) as nat
}

/// The answer of a read that returned no line.
pub open spec fn empty_answer(s: ScanView) -> Seq<char> {
    match s.stop {
        Stop::EndOfFile => if s.terminated == 0 {
            "[File is empty]"@
        } else {
            "[File has "@ + decimal(s.terminated as nat) + " line"@ + (if s.terminated == 1 {
                seq![]
            } else {
                "s"@
            }) + "; offset "@ + decimal(s.offset as nat) + " is past the end]"@
        },
        Stop::OutputLimit => "[The first line in range exceeds the 65536 byte output limit; inspect the file with bash]"@,
        _ => "[No complete lines could be read after scanning "@ + decimal(s.scanned as nat)
            + " bytes; the file's lines may be very long]"@,
    }
}

/// The answer of a read that returned lines: they, and a notice of where
/// to go on where the read stopped short of the end.
pub open spec fn full_answer(s: ScanView) -> Seq<char> {
    match s.stop {
        Stop::EndOfFile => s.output,
        Stop::LineLimit { has_more } => if has_more {
            s.output + "\n[File has more lines; continue reading with offset="@ + decimal(
                continuation(s),
            ) + "]"@
        } else {
            s.output
        },
        Stop::OutputLimit => s.output + "\n[Read stopped after "@ + decimal(byte_len(s.output))
            + " bytes of output (limit 65536); continue reading with offset="@ + decimal(
            continuation(s),
        ) + ", or inspect the file with bash]"@,
        Stop::ByteLimit => s.output + "\n[Read stopped after scanning "@ + decimal(
            s.scanned as nat,
        ) + " bytes; some lines may be very long. Continue reading with offset="@ + decimal(
            continuation(s),
        ) + ", or inspect the file with bash]"@,
    }
}

/// What a finished scan answers.
pub open spec fn answer(s: ScanView) -> Seq<char> {
    let f = flushed(s);
    if f.output.len() == 0 {
        empty_answer(f)
    } else {
        full_answer(f)
    }
}

/// What holds of a scan at all times: the output stays within its
/// limit, and no more lines are returned than were asked for or ended.
pub open spec fn scan_bounded(s: ScanView) -> bool {
    &&& byte_len(s.output) <= MAX_OUTPUT_BYTES
    &&& 1 <= s.offset
    &&& 1 <= s.limit <= MAX_READ_LIMIT
    &&& s.emitted <= s.limit
    &&& s.emitted <= s.terminated
    &&& s.terminated + s.pending.len() <= s.scanned
    &&& s.scanned <= MAX_READ_BYTES + READ_CHUNK_SIZE
    &&& (s.emitted == 0 ==> s.output.len() == 0)
    &&& (s.emitted > 0 ==> s.offset <= s.terminated)
}

/// What holds of a scan between two calls: besides its bounds, one that
/// wants the next chunk has budget left and lines to return, and one
/// that asks whether the file goes on has not stopped yet.
pub open spec fn scan_valid(s: ScanView) -> bool {
    &&& scan_bounded(s)
    &&& (s.next == Next::Read ==> s.stop == Stop::EndOfFile && s.scanned < MAX_READ_BYTES
        && s.emitted < s.limit)
    &&& (s.next == Next::Peek ==> s.stop == Stop::EndOfFile)
}

/// The message of a read whose `offset` is no 1-based line number.
pub open spec fn bad_offset_message() -> Seq<char> {
    "offset must be a 1-based line number (>= 1)"@
}

/// The message of a read whose `limit` is zero.
pub open spec fn bad_limit_message() -> Seq<char> {
    "limit must be >= 1"@
}

/// The line a read starts at, where it has one.
pub open spec fn start_line(offset: Option<u64>) -> Option<u64> {
    match offset {
        Some(o) => if o > 0 {
            Some(o)
        } else {
            None
        },
        None => Some(1),
    }
}

/// How many lines a read returns at most, where it has a number.
pub open spec fn line_budget(limit: Option<u64>) -> Option<u64> {
    match limit {
        Some(l) => if l > 0 {
            Some(if l < MAX_READ_LIMIT {
                l
            } else {
                MAX_READ_LIMIT
            })
        } else {
            None
        },
        None => Some(DEFAULT_READ_LIMIT),
    }
}

proof fn lemma_take_byte(s: ScanView, b: u8)
    requires
        scan_bounded(s),
        s.stop == Stop::EndOfFile,
        s.emitted < s.limit,
        s.terminated + s.pending.len() < s.scanned,
    ensures
        scan_bounded(take_byte(s, b)),
        take_byte(s, b).terminated + take_byte(s, b).pending.len() <= s.terminated
            + s.pending.len() + 1,
        take_byte(s, b).scanned == s.scanned,
        take_byte(s, b).next == s.next,
        take_byte(s, b).stop == Stop::EndOfFile || take_byte(s, b).stop == Stop::OutputLimit,
{
    if b == 10 {
        if s.terminated + 1 >= s.offset {
            let line = lossy_utf8(without_cr(s.pending));
            if !overflows(s.output, line) {
                lemma_byte_len_concat(s.output, line.push('\n'));
                crate::text::lemma_byte_len_push(line, '\n');
            }
        }
    }
}

proof fn lemma_take_bytes(s: ScanView, bytes: Seq<u8>)
    requires
        scan_bounded(s),
        s.stop == Stop::EndOfFile,
        s.emitted < s.limit,
        s.terminated + s.pending.len() + bytes.len() <= s.scanned,
    ensures
        ({
            let (t, n) = take_bytes(s, bytes);
            &&& scan_bounded(t)
            &&& n <= bytes.len()
            &&& t.scanned == s.scanned
            &&& t.next == s.next
            &&& (t.stop == Stop::EndOfFile || t.stop == Stop::OutputLimit)
            &&& (n < bytes.len() ==> halted(t))
            &&& (t.stop == Stop::EndOfFile ==> t.emitted <= t.limit)
        }),
    decreases bytes.len(),
{
    if bytes.len() > 0 {
        lemma_take_byte(s, bytes[0]);
        let t = take_byte(s, bytes[0]);
        if !halted(t) {
            lemma_take_bytes(t, bytes.drop_first());
        }
    }
}

impl Read {
    /// A read of `path`, from line `offset` (1-based), of `limit` lines.
    pub fn new(path: String, offset: Option<u64>, limit: Option<u64>) -> (r: Read)
        ensures
            r.path@ == path@,
            r.offset == offset,
            r.limit == limit,
    {
        Read { path, offset, limit }
    }

    /// The title of the call: the path, and the lines asked for.
    pub fn title(&self) -> (t: Option<String>)
        ensures
            t matches Some(title) && title@ == self.path@ + match (self.offset, self.limit) {
                (None, None) => seq![],
                (Some(o), None) => " ("@ + decimal(o as nat) + "..)"@,
                (None, Some(l)) => " (.."@ + decimal(l as nat) + ")"@,
                (Some(o), Some(l)) => " ("@ + decimal(o as nat) + ".."@ + decimal(
                    crate::git::wrapped_sum(o, l) as nat,
                ) + ")"@,
            },
    {
        let mut t: Vec<char> = chars_of(self.path.as_str());
        match (self.offset, self.limit) {
            (None, None) => {},
            (Some(o), None) => {
                push_str(&mut t, " (");
                push_decimal(&mut t, o);
                push_str(&mut t, "..)");
            },
            (None, Some(l)) => {
                push_str(&mut t, " (..");
                push_decimal(&mut t, l);
                push_str(&mut t, ")");
            },
            (Some(o), Some(l)) => {
                push_str(&mut t, " (");
                push_decimal(&mut t, o);
                push_str(&mut t, "..");
                push_decimal(&mut t, o.wrapping_add(l));
                push_str(&mut t, ")");
            },
        }
        Some(string_of(&t))
    }

    /// The scan this read asks for; an error where its offset or its
    /// limit is zero.
    pub fn scan(&self) -> (r: Result<Scan, String>)
        ensures
            match r {
                Ok(scan) => {
                    &&& start_line(self.offset) == Some(scan@.offset)
                    &&& line_budget(self.limit) == Some(scan@.limit)
                    &&& scan@.next == Next::Read
                    &&& scan@.stop == Stop::EndOfFile
                    &&& scan@.scanned == 0
                    &&& scan@.terminated == 0
                    &&& scan@.emitted == 0
                    &&& scan@.pending.len() == 0
                    &&& scan@.output.len() == 0
                    &&& scan.valid()
                },
                Err(message) => {
                    ||| start_line(self.offset) is None && message@ == bad_offset_message()
                    ||| start_line(self.offset) is Some && line_budget(self.limit) is None
                        && message@ == bad_limit_message()
                },
            },
    {
        let offset = match self.offset {
            Some(o) => {
                if o > 0 {
                    o
                } else {
                    return Err("offset must be a 1-based line number (>= 1)".to_owned());
                }
            },
            None => 1,
        };
        let limit = match self.limit {
            Some(l) => {
                if l > 0 {
                    if l < MAX_READ_LIMIT {
                        l
                    } else {
                        MAX_READ_LIMIT
                    }
                } else {
                    return Err("limit must be >= 1".to_owned());
                }
            },
            None => DEFAULT_READ_LIMIT,
        };
        let s = Scan {
            offset,
            limit,
            stop: Stop::EndOfFile,
            next: Next::Read,
            peek_lines: false,
            scanned: 0,
            terminated: 0,
            emitted: 0,
            pending: Vec::new(),
            output: Vec::new(),
            output_bytes: 0,
        };
        assert(s@.output =~= seq![]);
        Ok(s)
    }
}

impl Scan {
    /// Whether the scan keeps its bounds, and its count of output bytes.
    pub closed spec fn valid(&self) -> bool {
        &&& self.output_bytes == byte_len(self.output@)
        &&& scan_valid(self@)
    }

    /// What the scan wants next.
    pub fn next(&self) -> (n: Next)
        ensures
            n == self@.next,
    {
        self.next
    }

    /// The bytes of a line without the `\r` of a `\r\n` ending.
    fn line_bytes(&self) -> (b: Vec<u8>)
        ensures
            b@ == without_cr(self.pending@),
    {
        let n = self.pending.len();
        let end = if n > 0 && self.pending[n - 1] == 13 {
            n - 1
        } else {
            n
        };
        let mut b: Vec<u8> = Vec::new();
        let mut i: usize = 0;
        while i < end
            invariant
                end <= n == self.pending.len(),
                i <= end,
                b@ == self.pending@.take(i as int),
            decreases end - i,
        {
            b.push(self.pending[i]);
            i = i + 1;
            assert(b@ =~= self.pending@.take(i as int));
        }
        assert(b@ =~= without_cr(self.pending@));
        b
    }

    /// Takes one byte of the file.
    fn take(&mut self, b: u8)
        requires
            old(self).output_bytes == byte_len(old(self).output@),
            scan_bounded(old(self)@),
            old(self)@.stop == Stop::EndOfFile,
            old(self)@.emitted < old(self)@.limit,
            old(self)@.terminated + old(self)@.pending.len() < old(self)@.scanned,
        ensures
            final(self)@ == take_byte(old(self)@, b),
            final(self).output_bytes == byte_len(final(self)@.output),
    {
        proof {
            lemma_take_byte(self@, b);
        }
        if b == 10 {
            self.terminated = self.terminated + 1;
            if self.terminated >= self.offset {
                let bytes = self.line_bytes();
                let line = decode_lossy(bytes.as_slice());
                let n = str_bytes(line.as_str());
                if n as u64 >= MAX_OUTPUT_BYTES - self.output_bytes {
                    self.stop = Stop::OutputLimit;
                    self.pending = bytes;
                } else {
                    let ghost before = self.output@;
                    let chars = chars_of(line.as_str());
                    extend(&mut self.output, &chars);
                    self.output.push('\n');
                    proof {
                        lemma_byte_len_concat(before, line@.push('\n'));
                        crate::text::lemma_byte_len_push(line@, '\n');
                        assert(self.output@ =~= before + line@.push('\n'));
                    }
                    self.output_bytes = self.output_bytes + n as u64 + 1;
                    self.emitted = self.emitted + 1;
                    self.pending.clear();
                    assert(self.pending@ =~= seq![]);
                }
            } else {
                self.pending.clear();
                assert(self.pending@ =~= seq![]);
            }
        } else {
            self.pending.push(b);
        }
    }

    /// Takes the next chunk of the file; an empty one is its end.
    pub fn feed(&mut self, chunk: &[u8])
        requires
            old(self).valid(),
            old(self)@.next == Next::Read,
            chunk.len() <= READ_CHUNK_SIZE,
        ensures
            final(self).valid(),
            final(self)@ == fed(old(self)@, chunk@),
    {
        if chunk.len() == 0 {
            self.next = Next::Done;
            return;
        }
        self.scanned = self.scanned + chunk.len() as u64;
        let ghost start = self@;
        let mut i: usize = 0;
        proof {
            lemma_take_bytes(start, chunk@);
            assert(chunk@.skip(0) =~= chunk@);
        }
        while i < chunk.len()
            invariant_except_break
                self@.stop == Stop::EndOfFile,
                self@.emitted < self@.limit,
                take_bytes(start, chunk@) == ({
                    let (u, n) = take_bytes(self@, chunk@.skip(i as int));
                    (u, (n + i) as nat)
                }),
            invariant
                0 <= i <= chunk.len(),
                self.output_bytes == byte_len(self.output@),
                scan_bounded(self@),
                self@.next == Next::Read,
                self@.scanned == start.scanned,
                self@.terminated + self@.pending.len() + (chunk.len() - i) <= self@.scanned,
            ensures
                self.output_bytes == byte_len(self.output@),
                take_bytes(start, chunk@) == (self@, i as nat),
            decreases chunk.len() - i,
        {
            let ghost before = self@;
            proof {
                assert(chunk@.skip(i as int).drop_first() =~= chunk@.skip(i + 1));
                assert(chunk@.skip(i as int)[0] == chunk@[i as int]);
                lemma_take_byte(before, chunk@[i as int]);
            }
            self.take(chunk[i]);
            i = i + 1;
            if self.stop == Stop::OutputLimit || self.emitted == self.limit {
                break;
            }
            proof {
                if i == chunk.len() {
                    assert(chunk@.skip(i as int) =~= seq![]);
                }
            }
        }
        proof {
            lemma_take_bytes(start, chunk@);
        }
        if self.stop == Stop::OutputLimit {
            self.next = Next::Done;
        } else if self.emitted == self.limit {
            if i < chunk.len() {
                self.stop = Stop::LineLimit { has_more: true };
                self.next = Next::Done;
            } else {
                self.next = Next::Peek;
                self.peek_lines = true;
            }
        } else if self.scanned >= MAX_READ_BYTES {
            self.next = Next::Peek;
            self.peek_lines = false;
        }
    }

    /// Takes the answer to the question the scan asked: whether the file
    /// goes on.
    pub fn peek(&mut self, more: bool)
        requires
            old(self).valid(),
            old(self)@.next == Next::Peek,
        ensures
            final(self).valid(),
            final(self)@ == peeked(old(self)@, more),
    {
        if self.peek_lines {
            self.stop = Stop::LineLimit { has_more: more };
        } else {
            self.stop = if more {
                Stop::ByteLimit
            } else {
                Stop::EndOfFile
            };
        }
        self.next = Next::Done;
    }

    /// What the read answers, once the scan is done.
    pub fn finish(self) -> (r: String)
        requires
            self.valid(),
            self@.next == Next::Done,
        ensures
            r@ == answer(self@),
    {
        let ghost f = flushed(self@);
        let mut s = self;
        if s.stop == Stop::EndOfFile && s.pending.len() > 0 {
            let bytes = s.line_bytes();
            let line = decode_lossy(bytes.as_slice());
            let n = str_bytes(line.as_str());
            if n as u64 >= MAX_OUTPUT_BYTES - s.output_bytes {
                s.stop = Stop::OutputLimit;
            } else if s.terminated + 1 >= s.offset {
                let ghost before = s.output@;
                let chars = chars_of(line.as_str());
                extend(&mut s.output, &chars);
                s.output.push('\n');
                proof {
                    lemma_byte_len_concat(before, line@.push('\n'));
                    crate::text::lemma_byte_len_push(line@, '\n');
                    assert(s.output@ =~= before + line@.push('\n'));
                }
                s.output_bytes = s.output_bytes + n as u64 + 1;
                s.emitted = s.emitted + 1;
            }
            s.terminated = s.terminated + 1;
        }
        assert(s.output@ == f.output);
        assert(s.stop == f.stop);
        assert(s.terminated == f.terminated);
        assert(s.emitted == f.emitted);
        let mut out: Vec<char> = Vec::new();
        if s.output.len() == 0 {
            match s.stop {
                Stop::EndOfFile => {
                    if s.terminated == 0 {
                        push_str(&mut out, "[File is empty]");
                    } else {
                        push_str(&mut out, "[File has ");
                        push_decimal(&mut out, s.terminated);
                        push_str(&mut out, " line");
                        if s.terminated != 1 {
                            push_str(&mut out, "s");
                        }
                        push_str(&mut out, "; offset ");
                        push_decimal(&mut out, s.offset);
                        push_str(&mut out, " is past the end]");
                    }
                },
                Stop::OutputLimit => {
                    push_str(
                        &mut out,
                        "[The first line in range exceeds the 65536 byte output limit; inspect the file with bash]",
                    );
                },
                _ => {
                    push_str(&mut out, "[No complete lines could be read after scanning ");
                    push_decimal(&mut out, s.scanned);
                    push_str(&mut out, " bytes; the file's lines may be very long]");
                },
            }
        } else {
            extend(&mut out, &s.output);
            match s.stop {
                Stop::EndOfFile => {},
                Stop::LineLimit { has_more } => {
                    if has_more {
                        push_str(&mut out, "\n[File has more lines; continue reading with offset=");
                        push_decimal(&mut out, s.offset + s.emitted);
                        push_str(&mut out, "]");
                    }
                },
                Stop::OutputLimit => {
                    push_str(&mut out, "\n[Read stopped after ");
                    push_decimal(&mut out, s.output_bytes);
                    push_str(
                        &mut out,
                        " bytes of output (limit 65536); continue reading with offset=",
                    );
                    push_decimal(&mut out, s.offset + s.emitted);
                    push_str(&mut out, ", or inspect the file with bash]");
                },
                Stop::ByteLimit => {
                    push_str(&mut out, "\n[Read stopped after scanning ");
                    push_decimal(&mut out, s.scanned);
                    push_str(
                        &mut out,
                        " bytes; some lines may be very long. Continue reading with offset=",
                    );
                    push_decimal(&mut out, s.offset + s.emitted);
                    push_str(&mut out, ", or inspect the file with bash]");
                },
            }
        }
        string_of(&out)
    }
}

/// A scan keeps its bounds whatever chunk of the file it takes: its
/// output never passes the output limit, it returns no more lines than
/// were asked for, and it scans no further than its budget and a chunk.
pub proof fn law_feeding_keeps_the_bounds(s: ScanView, chunk: Seq<u8>)
    requires
        scan_valid(s),
        s.next == Next::Read,
        chunk.len() <= READ_CHUNK_SIZE,
    ensures
        scan_valid(fed(s, chunk)),
{
    if chunk.len() > 0 {
        let s1 = ScanView { scanned: (s.scanned + chunk.len()) as u64, ..s };
        lemma_take_bytes(s1, chunk);
    }
}

/// Learning whether the file goes on keeps a scan's bounds, and ends it.
pub proof fn law_peeking_keeps_the_bounds(s: ScanView, more: bool)
    requires
        scan_valid(s),
        s.next == Next::Peek,
    ensures
        scan_valid(peeked(s, more)),
        peeked(s, more).next == Next::Done,
{
}

/// The lines a read returns, its final line taken in, stay within the
/// output limit.
pub proof fn law_returned_lines_fit_the_limit(s: ScanView)
    requires
        scan_bounded(s),
    ensures
        byte_len(flushed(s).output) <= MAX_OUTPUT_BYTES,
{
    if s.stop == Stop::EndOfFile && s.pending.len() > 0 {
        let line = lossy_utf8(without_cr(s.pending));
        if !overflows(s.output, line) {
            lemma_byte_len_concat(s.output, line.push('\n'));
            crate::text::lemma_byte_len_push(line, '\n');
        }
    }
}

} // verus!
