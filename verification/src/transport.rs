//! Message framing that does not give up on bad input.
//!
//! A frame that cannot be decoded is skipped, a header block without a usable
//! length is skipped too, and only the end of the input, an unreadable stream or a
//! long run of junk ends the reading.
use vstd::prelude::*;
use vstd::utf8::{decode_utf8, encode_utf8_decode_utf8, valid_utf8};

use crate::grammar::NEWLINE;
use crate::script::utf8_text;
use crate::text::{
    after_prefix, chars_of, number, same_text, parse_number, trim, trim_end, trimmed, trimmed_end,
};

verus! {

/// How many bytes may go by without a header before the reader gives up.
pub const RESYNC_CAP: usize = 4194304;

// -------------------------------------------------------------------- headers
/// Whether the text begins with the lower-case prefix, in any case.
pub open spec fn begins_in_any_case(s: Seq<char>, p: Seq<char>) -> bool {
    &&& s.len() >= p.len()
    &&& forall|i: int|
        0 <= i < p.len() ==> {
            ||| #[trigger] p[i] == s[i]
            ||| 'a' <= p[i] <= 'z' && s[i] as u32 + 32 == p[i] as u32
        }
}

/// Whether the line is a length header.
pub open spec fn is_length_header(line: Seq<char>) -> bool {
    begins_in_any_case(trim_end(line), "content-length:"@)
}

/// The length that a length header gives, if it is a number.
pub open spec fn header_length(line: Seq<char>) -> Option<int> {
    number(trim(after_prefix(trim_end(line), "content-length:"@)), usize::MAX as int)
}

/// What is to be done after a header line.
pub enum StepView {
    /// Read another line. The length is what the headers gave so far, and so many
    /// bytes have gone by.
    More { length: Option<int>, scanned: int },
    /// Read a body of that length.
    Body { size: int },
    /// Give up: no header within the resync window.
    Lost,
}

/// What a header line of `n` bytes leads to. A blank line ends a block of headers
/// that gave a length.
pub open spec fn header_step(
    length: Option<int>,
    scanned: int,
    line: Seq<char>,
    n: int,
) -> StepView {
    if is_length_header(line) {
        if scanned + n > RESYNC_CAP {
            StepView::Lost
        } else {
            StepView::More {
                length: match header_length(line) {
                    Some(v) => Some(v),
                    None => length,
                },
                scanned: scanned + n,
            }
        }
    } else if trim_end(line).len() == 0 && length is Some {
        StepView::Body { size: length->0 }
    } else if scanned + n > RESYNC_CAP {
        StepView::Lost
    } else {
        StepView::More { length, scanned: scanned + n }
    }
}

/// The step that the bytes of a line call for. A line that is no text is junk like any
/// other: it ends no header block and gives no length.
pub open spec fn line_step(length: Option<int>, scanned: int, bytes: Seq<u8>) -> StepView {
    match utf8_text(bytes) {
        Some(line) => header_step(length, scanned, line, bytes.len() as int),
        None => if scanned + bytes.len() > RESYNC_CAP {
            StepView::Lost
        } else {
            StepView::More { length, scanned: scanned + bytes.len() }
        },
    }
}

/// What is to be done after a header line.
#[derive(Debug, Clone, Copy, PartialEq, Eq, Structural)]
pub enum Step {
    /// Read another line.
    More,
    /// Read a body of that length.
    Body(usize),
    /// Give up: no header within the resync window.
    Lost,
}

/// The headers of one frame, as they are read line by line.
pub struct HeaderReader {
    length: Option<usize>,
    scanned: usize,
}

impl HeaderReader {
    #[verifier::type_invariant]
    spec fn within(self) -> bool {
        self.scanned <= RESYNC_CAP
    }

    /// The length that the headers gave so far.
    pub closed spec fn length(self) -> Option<int> {
        match self.length {
            Some(n) => Some(n as int),
            None => None,
        }
    }

    /// How many bytes have gone by.
    pub closed spec fn scanned(self) -> int {
        self.scanned as int
    }

    pub fn new() -> (r: Self)
        ensures
            r.length() is None,
            r.scanned() == 0,
    {
        HeaderReader { length: None, scanned: 0 }
    }

    /// Takes the next line, of `n` bytes.
    pub fn line(&mut self, line: &str, n: usize) -> (step: Step)
        ensures
            match header_step(old(self).length(), old(self).scanned(), line@, n as int) {
                StepView::More { length, scanned } => {
                    &&& step == Step::More
                    &&& final(self).length() == length
                    &&& final(self).scanned() == scanned
                },
                StepView::Body { size } => step is Body && step->Body_0 == size,
                StepView::Lost => step == Step::Lost,
            },
    {
        proof {
            use_type_invariant(&*self);
        }
        let chars = chars_of(line);
        let text = trimmed_end(chars.as_slice());
        let mut length = self.length;
        if begins_like(text, "content-length:") {
            let prefix = chars_of("content-length:");
            let rest = vstd::slice::slice_subrange(text, prefix.len(), text.len());
            if let Some(v) = parse_number(trimmed(rest), usize::MAX as u64) {
                length = Some(v as usize);
            }
        } else if text.len() == 0 {
            if let Some(v) = length {
                return Step::Body(v);
            }
        }
        if n > RESYNC_CAP - self.scanned {
            return Step::Lost;
        }
        let scanned = self.scanned + n;
        *self = HeaderReader { length, scanned };
        Step::More
    }

    /// Takes the bytes of the next line, which need not be text.
    pub fn line_bytes(&mut self, bytes: &[u8]) -> (step: Step)
        ensures
            match line_step(old(self).length(), old(self).scanned(), bytes@) {
                StepView::More { length, scanned } => {
                    &&& step == Step::More
                    &&& final(self).length() == length
                    &&& final(self).scanned() == scanned
                },
                StepView::Body { size } => step is Body && step->Body_0 == size,
                StepView::Lost => step == Step::Lost,
            },
    {
        let n: usize = bytes.len();
        match core::str::from_utf8(bytes) {
            Ok(line) => {
                proof {
                    encode_utf8_decode_utf8(line@);
                }
                self.line(line, n)
            },
            Err(_) => {
                proof {
                    use_type_invariant(&*self);
                }
                if n > RESYNC_CAP - self.scanned {
                    return Step::Lost;
                }
                let scanned = self.scanned + n;
                *self = HeaderReader { length: self.length, scanned };
                Step::More
            },
        }
    }
}

fn begins_like(s: &[char], p: &str) -> (r: bool)
    ensures
        r == begins_in_any_case(s@, p@),
{
    let prefix = chars_of(p);
    if s.len() < prefix.len() {
        return false;
    }
    let mut i: usize = 0;
    while i < prefix.len()
        invariant
            i <= prefix@.len() <= s@.len(),
            prefix@ == p@,
            forall|k: int|
                0 <= k < i ==> {
                    ||| #[trigger] p@[k] == s@[k]
                    ||| 'a' <= p@[k] <= 'z' && s@[k] as u32 + 32 == p@[k] as u32
                },
        decreases prefix@.len() - i,
    {
        let a: char = s[i];
        let b: char = prefix[i];
        if a != b {
            if !('a' <= b && b <= 'z') {
                return false;
            }
            if (a as u32) > 0x10ffff || a as u32 + 32 != b as u32 {
                return false;
            }
        }
        i = i + 1;
    }
    true
}

// --------------------------------------------------------------------- bodies
/// The text that bytes are read as where they may not be well-formed.
pub uninterp spec fn lossy_text(bytes: Seq<u8>) -> Seq<char>;

/// `String::from_utf8_lossy` of std: well-formed bytes are read as they are, and
/// what is not well-formed is replaced in a way that the bytes alone decide.
#[verifier::external_body]
fn from_utf8_lossy(bytes: &[u8]) -> (r: String)
    ensures
        r@ == lossy_text(bytes@),
        valid_utf8(bytes@) ==> r@ == decode_utf8(bytes@),
{
    String::from_utf8_lossy(bytes).into_owned()
}

/// The text of a frame's body.
pub fn body_text(bytes: &[u8]) -> (r: String)
    ensures
        r@ == lossy_text(bytes@),
        valid_utf8(bytes@) ==> r@ == decode_utf8(bytes@),
{
    from_utf8_lossy(bytes)
}

// --------------------------------------------------------------------- frames
/// Why no more frames can be read.
#[derive(Debug, Clone, Copy, PartialEq, Eq, Structural)]
pub enum FrameError {
    /// No `Content-Length` header within the resync window.
    NoHeader,
    /// The input ends inside a body.
    Truncated,
}

/// The end of the line at `i`, after its newline.
pub open spec fn line_after(b: Seq<u8>, i: int) -> int
    decreases b.len() - i,
{
    if i < 0 || i >= b.len() {
        i
    } else if b[i] == NEWLINE {
        i + 1
    } else {
        line_after(b, i + 1)
    }
}

/// What is found where a frame should be.
pub enum FrameView {
    /// Nothing: the input is at its end.
    End,
    /// A body.
    Body { start: int, end: int },
    Broken(FrameError),
}

proof fn lemma_line_after(b: Seq<u8>, i: int)
    ensures
        0 <= i <= b.len() ==> i <= line_after(b, i) <= b.len(),
        0 <= i < b.len() ==> i < line_after(b, i),
    decreases b.len() - i,
{
    if 0 <= i < b.len() && b[i] != NEWLINE {
        lemma_line_after(b, i + 1);
    }
}

/// The frame whose headers are read on at `at`.
pub open spec fn frame_at(b: Seq<u8>, at: int, length: Option<int>, scanned: int) -> FrameView
    decreases b.len() - at,
    when 0 <= at
    via frame_at_decreases
{
    if at >= b.len() {
        FrameView::End
    } else {
        let e = line_after(b, at);
        match line_step(length, scanned, b.subrange(at, e)) {
            StepView::More { length, scanned } => frame_at(b, e, length, scanned),
            StepView::Body { size } => if size <= b.len() - e {
                FrameView::Body { start: e, end: e + size }
            } else {
                FrameView::Broken(FrameError::Truncated)
            },
            StepView::Lost => FrameView::Broken(FrameError::NoHeader),
        }
    }
}

#[via_fn]
proof fn frame_at_decreases(b: Seq<u8>, at: int, length: Option<int>, scanned: int) {
    lemma_line_after(b, at);
}

/// Bytes from the other side, and how far they have been read.
pub struct Wire {
    bytes: Vec<u8>,
    at: usize,
}

impl Wire {
    #[verifier::type_invariant]
    spec fn in_range(self) -> bool {
        self.at <= self.bytes@.len()
    }

    pub closed spec fn bytes(self) -> Seq<u8> {
        self.bytes@
    }

    pub closed spec fn at(self) -> int {
        self.at as int
    }

    pub fn new(bytes: Vec<u8>) -> (w: Self)
        ensures
            w.bytes() == bytes@,
            w.at() == 0,
    {
        Wire { bytes, at: 0 }
    }

    /// Reads one `Content-Length`-framed body. `Ok(None)` is the end of the input.
    ///
    /// A header block that ends with no usable length is not fatal: the reader keeps
    /// scanning lines for the next real header, so that it resyncs on the next
    /// well-formed frame.
    pub fn read_frame(&mut self) -> (r: Result<Option<String>, FrameError>)
        ensures
            final(self).bytes() == old(self).bytes(),
            match frame_at(old(self).bytes(), old(self).at(), None, 0) {
                FrameView::End => {
                    &&& r == Ok::<Option<String>, FrameError>(None)
                    &&& final(self).at() == old(self).bytes().len()
                },
                FrameView::Body { start, end } => {
                    &&& r is Ok && r->Ok_0 is Some
                    &&& (r->Ok_0)->0@ == lossy_text(old(self).bytes().subrange(start, end))
                    &&& valid_utf8(old(self).bytes().subrange(start, end)) ==> (r->Ok_0)->0@
                        == decode_utf8(old(self).bytes().subrange(start, end))
                    &&& final(self).at() == end
                },
                FrameView::Broken(e) => {
                    &&& r == Err::<Option<String>, FrameError>(e)
                    &&& final(self).at() == old(self).at()
                },
            },
    {
        proof {
            use_type_invariant(&*self);
        }
        let mut headers = HeaderReader::new();
        let len: usize = self.bytes.len();
        let mut p: usize = self.at;
        let ghost b = self.bytes@;
        let ghost whole = frame_at(b, p as int, None, 0);
        while p < len
            invariant
                self.at <= p <= len == b.len(),
                *self == *old(self),
                b == self.bytes@,
                whole == frame_at(old(self).bytes(), old(self).at(), None, 0),
                whole == frame_at(b, p as int, headers.length(), headers.scanned()),
            decreases len - p,
        {
            let mut e: usize = p;
            proof {
                lemma_line_after(b, p as int);
            }
            while e < len && self.bytes[e] != NEWLINE
                invariant
                    p <= e <= len == b.len(),
                    b == self.bytes@,
                    line_after(b, p as int) == line_after(b, e as int),
                decreases len - e,
            {
                e = e + 1;
            }
            if e < len {
                e = e + 1;
            }
            let bytes = vstd::slice::slice_subrange(self.bytes.as_slice(), p, e);
            match headers.line_bytes(bytes) {
                Step::More => {},
                Step::Body(n) => {
                    if n > len - e {
                        return Err(FrameError::Truncated);
                    }
                    let body = body_text(
                        vstd::slice::slice_subrange(self.bytes.as_slice(), e, e + n),
                    );
                    self.at = e + n;
                    return Ok(Some(body));
                },
                Step::Lost => {
                    return Err(FrameError::NoHeader);
                },
            }
            p = e;
        }
        self.at = len;
        Ok(None)
    }
}

// ------------------------------------------------------------------- messages
/// `lsp_server::Message`, carried but not read.
#[verifier::external_type_specification]
#[verifier::external_body]
pub struct ExMessage(lsp_server::Message);

/// What kind of message it is, and its method.
#[derive(Debug, Clone)]
pub enum Envelope {
    Request(String),
    Notification(String),
    Response,
}

pub enum EnvelopeView {
    Request(Seq<char>),
    Notification(Seq<char>),
    Response,
}

impl View for Envelope {
    type V = EnvelopeView;

    open spec fn view(&self) -> EnvelopeView {
        match self {
            Envelope::Request(method) => EnvelopeView::Request(method@),
            Envelope::Notification(method) => EnvelopeView::Notification(method@),
            Envelope::Response => EnvelopeView::Response,
        }
    }
}

/// A message from the other side.
pub struct Incoming {
    pub message: lsp_server::Message,
    pub envelope: Envelope,
}

/// What kind of message a text is, if it is a JSON-RPC message.
pub uninterp spec fn envelope_of(text: Seq<char>) -> Option<EnvelopeView>;

/// The message that a text is, if it is a JSON-RPC message.
pub uninterp spec fn message_of(text: Seq<char>) -> Option<lsp_server::Message>;

/// `serde_json::from_str` into a JSON value, then `serde_json::from_value` into an
/// `lsp_server::Message`. Which message a text is, if it is one, and of which kind and
/// method, depends on the text alone.
#[verifier::external_body]
fn parse_message(text: &str) -> (r: Option<Incoming>)
    ensures
        match envelope_of(text@) {
            Some(e) => r is Some && r->0.envelope@ == e,
            None => r is None,
        },
        match r {
            Some(incoming) => message_of(text@) == Some(incoming.message),
            None => message_of(text@) is None,
        },
{
    let value: serde_json::Value = serde_json::from_str(text).ok()?;
    let message: lsp_server::Message = serde_json::from_value(value).ok()?;
    let envelope = match &message {
        lsp_server::Message::Request(r) => Envelope::Request(r.method.clone()),
        lsp_server::Message::Notification(n) => Envelope::Notification(n.method.clone()),
        lsp_server::Message::Response(_) => Envelope::Response,
    };
    Some(Incoming { message, envelope })
}

/// Decodes one frame body. `None` means "not a valid message — drop it and keep
/// serving".
pub fn decode(text: &str) -> (r: Option<Incoming>)
    ensures
        match envelope_of(text@) {
            Some(e) => r is Some && r->0.envelope@ == e,
            None => r is None,
        },
        match r {
            Some(incoming) => message_of(text@) == Some(incoming.message),
            None => message_of(text@) is None,
        },
{
    parse_message(text)
}

/// Decodes one frame body, for the message alone.
pub fn decode_message(text: &str) -> (r: Option<lsp_server::Message>)
    ensures
        r == message_of(text@),
        r is Some <==> envelope_of(text@) is Some,
{
    match decode(text) {
        Some(incoming) => Some(incoming.message),
        None => None,
    }
}

/// Whether a message ends the session: after it nothing more is read.
pub open spec fn ends_session(e: EnvelopeView) -> bool {
    e == EnvelopeView::Notification("exit"@)
}

pub fn is_exit(e: &Envelope) -> (r: bool)
    ensures
        r == ends_session(e@),
{
    match e {
        Envelope::Notification(method) => same_text(method.as_str(), "exit"),
        _ => false,
    }
}

/// Where the first frame from `at` on that holds a message is, and what ends the
/// reading if there is none.
pub open spec fn message_at(b: Seq<u8>, at: int) -> FrameView
    decreases b.len() - at,
    when 0 <= at
    via message_at_decreases
{
    match frame_at(b, at, None, 0) {
        FrameView::Body { start, end } => if envelope_of(lossy_text(b.subrange(start, end))) is Some {
            FrameView::Body { start, end }
        } else {
            message_at(b, end)
        },
        other => other,
    }
}

#[via_fn]
proof fn message_at_decreases(b: Seq<u8>, at: int) {
    lemma_frame_at(b, at, None, 0);
}

/// Where the reading from `at` on comes to rest: behind the frames that hold no message.
pub open spec fn after_garbage(b: Seq<u8>, at: int) -> int
    decreases b.len() - at,
    when 0 <= at
    via after_garbage_decreases
{
    match frame_at(b, at, None, 0) {
        FrameView::Body { start, end } => if envelope_of(lossy_text(b.subrange(start, end))) is Some {
            at
        } else {
            after_garbage(b, end)
        },
        _ => at,
    }
}

#[via_fn]
proof fn after_garbage_decreases(b: Seq<u8>, at: int) {
    lemma_frame_at(b, at, None, 0);
}

/// A body lies after the place where its headers were looked for.
proof fn lemma_frame_at(b: Seq<u8>, at: int, length: Option<int>, scanned: int)
    requires
        0 <= at,
        length matches Some(n) ==> n >= 0,
    ensures
        frame_at(b, at, length, scanned) matches FrameView::Body { start, end } ==> at < start
            <= end <= b.len(),
    decreases b.len() - at,
{
    if at < b.len() {
        lemma_line_after(b, at);
        let e = line_after(b, at);
        if let Some(line) = utf8_text(b.subrange(at, e)) {
            lemma_header_length(line);
        }
        if let StepView::More { length: l, scanned: s } = line_step(
            length,
            scanned,
            b.subrange(at, e),
        ) {
            lemma_frame_at(b, e, l, s);
        }
    }
}

proof fn lemma_header_length(line: Seq<char>)
    ensures
        header_length(line) matches Some(n) ==> n >= 0,
{
    crate::text::lemma_number(
        trim(after_prefix(trim_end(line), "content-length:"@)),
        usize::MAX as int,
    );
}

impl Wire {
    /// Reads frames until one holds a message. A frame that holds none is dropped:
    /// bad bytes do not end the reading. Where no frame can be read, the reader stays at
    /// the headers that are broken.
    pub fn next_message(&mut self) -> (r: Result<Option<Incoming>, FrameError>)
        ensures
            final(self).bytes() == old(self).bytes(),
            match message_at(old(self).bytes(), old(self).at()) {
                FrameView::End => {
                    &&& r is Ok && r->Ok_0 is None
                    &&& final(self).at() == old(self).bytes().len()
                },
                FrameView::Body { start, end } => {
                    &&& r is Ok && r->Ok_0 is Some
                    &&& Some((r->Ok_0)->0.message) == message_of(
                        lossy_text(old(self).bytes().subrange(start, end)),
                    )
                    &&& Some((r->Ok_0)->0.envelope@) == envelope_of(
                        lossy_text(old(self).bytes().subrange(start, end)),
                    )
                    &&& final(self).at() == end
                },
                FrameView::Broken(e) => {
                    &&& r is Err && r->Err_0 == e
                    &&& final(self).at() == after_garbage(old(self).bytes(), old(self).at())
                },
            },
    {
        let ghost b = self.bytes();
        loop
            invariant
                self.bytes() == b,
                b == old(self).bytes(),
                0 <= self.at(),
                message_at(b, old(self).at()) == message_at(b, self.at()),
                after_garbage(b, old(self).at()) == after_garbage(b, self.at()),
            decreases b.len() - self.at(),
        {
            let ghost at = self.at();
            proof {
                lemma_frame_at(b, at, None, 0);
            }
            match self.read_frame() {
                Ok(Some(body)) => {
                    if let Some(m) = decode(body.as_str()) {
                        return Ok(Some(m));
                    }
                },
                Ok(None) => {
                    return Ok(None);
                },
                Err(e) => {
                    return Err(e);
                },
            }
        }
    }
}

// ----------------------------------------------------------------------- laws
/// A length header, a blank line and that many bytes are one frame.
pub proof fn well_formed_frames_are_read(
    b: Seq<u8>,
    at: int,
    header: Seq<char>,
    blank: Seq<char>,
    n: int,
)
    requires
        0 <= at < b.len(),
        utf8_text(b.subrange(at, line_after(b, at))) == Some(header),
        is_length_header(header),
        header_length(header) == Some(n),
        line_after(b, at) - at <= RESYNC_CAP,
        line_after(b, at) < b.len(),
        utf8_text(b.subrange(line_after(b, at), line_after(b, line_after(b, at)))) == Some(blank),
        trim_end(blank).len() == 0,
        n <= b.len() - line_after(b, line_after(b, at)),
    ensures
        frame_at(b, at, None, 0) == (FrameView::Body {
            start: line_after(b, line_after(b, at)),
            end: line_after(b, line_after(b, at)) + n,
        }),
{
    reveal_strlit("content-length:");
    let m = line_after(b, at);
    lemma_line_after(b, at);
    lemma_line_after(b, m);
    reveal_with_fuel(frame_at, 3);
}

/// A line that is no usable length header is skipped, whatever it is, text or not: the
/// frame after it is found as if it were not there.
pub proof fn junk_is_skipped(b: Seq<u8>, at: int, scanned: int)
    requires
        0 <= at < b.len(),
        0 <= scanned,
        utf8_text(b.subrange(at, line_after(b, at))) matches Some(line) ==> !is_length_header(line)
            || header_length(line) is None,
        scanned + (line_after(b, at) - at) <= RESYNC_CAP,
    ensures
        frame_at(b, at, None, scanned) == frame_at(
            b,
            line_after(b, at),
            None,
            scanned + (line_after(b, at) - at),
        ),
{
    lemma_line_after(b, at);
}

/// A frame that holds no message is dropped, and the reading goes on behind it.
pub proof fn garbage_is_dropped(b: Seq<u8>, at: int, start: int, end: int)
    requires
        0 <= at,
        frame_at(b, at, None, 0) == (FrameView::Body { start, end }),
        envelope_of(lossy_text(b.subrange(start, end))) is None,
    ensures
        message_at(b, at) == message_at(b, end),
{
    lemma_frame_at(b, at, None, 0);
}

} // verus!
