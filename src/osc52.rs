//! The OSC 52 wire format: the frames sent to the terminal and an
//! incremental scanner for the terminal's reply.
//!
//! A write request is `ESC ] 5 2 ; ; <base64> ESC \`, a read query is
//! `ESC ] 5 2 ; ; ? ESC \`, and a reply is `ESC ] 5 2 ; <sel>? ; <base64>`
//! followed by any byte outside the base64 text (in practice `ESC \` or BEL),
//! where `<sel>` is one ASCII word character naming the selection.
use vstd::prelude::*;
use vstd::slice::slice_subrange;
use crate::base64::{
    decode_bytes, decode_spec, encode_bytes, encode_spec, encoded_len, is_base64_byte,
    lemma_encode_layout, lemma_round_trip, Base64DecodeError, Base64EncodeError,
};

verus! {

/// The bytes that open every OSC 52 request: `ESC ] 5 2 ; ;`.
pub open spec fn request_head() -> Seq<u8> {
    seq![27u8, 93u8, 53u8, 50u8, 59u8, 59u8]
}

/// The string terminator `ESC \` that closes a request.
pub open spec fn request_tail() -> Seq<u8> {
    seq![27u8, 92u8]
}

/// The frame that sets the clipboard to the bytes whose base64 text is `text`.
pub open spec fn write_frame_spec(text: Seq<u8>) -> Seq<u8> {
    request_head() + text + request_tail()
}

/// The frame that asks the terminal for the clipboard's content.
pub open spec fn query_frame_spec() -> Seq<u8> {
    request_head() + seq![63u8] + request_tail()
}

fn push_all(out: &mut Vec<u8>, bytes: &[u8])
    ensures
        final(out)@ == old(out)@ + bytes@,
{
    let mut i: usize = 0;
    while i < bytes.len()
        invariant
            i <= bytes@.len(),
            out@ == old(out)@ + bytes@.take(i as int),
        decreases bytes@.len() - i,
    {
        out.push(bytes[i]);
        assert(bytes@.take(i + 1) =~= bytes@.take(i as int).push(bytes@[i as int]));
        i = i + 1;
    }
    assert(bytes@.take(i as int) =~= bytes@);
}

fn push_head(out: &mut Vec<u8>)
    ensures
        final(out)@ == old(out)@ + request_head(),
{
    out.push(27);
    out.push(93);
    out.push(53);
    out.push(50);
    out.push(59);
    out.push(59);
    assert(final(out)@ =~= old(out)@ + request_head());
}

fn push_tail(out: &mut Vec<u8>)
    ensures
        final(out)@ == old(out)@ + request_tail(),
{
    out.push(27);
    out.push(92);
    assert(final(out)@ =~= old(out)@ + request_tail());
}

/// The frame that sets the terminal's clipboard to `data`. An empty `data`
/// clears the clipboard. Fails only where the base64 text of `data` would
/// not fit in memory.
pub fn write_frame(data: &[u8]) -> (r: Result<Vec<u8>, Base64EncodeError>)
    ensures
        encoded_len(data@.len() as int) <= usize::MAX ==> r is Ok && r->Ok_0@ == write_frame_spec(
            encode_spec(data@),
        ),
        encoded_len(data@.len() as int) > usize::MAX ==> r == Err::<Vec<u8>, Base64EncodeError>(
            Base64EncodeError::InputTooLarge,
        ),
{
    let text = match encode_bytes(data) {
        Ok(t) => t,
        Err(e) => return Err(e),
    };
    let mut out: Vec<u8> = Vec::new();
    push_head(&mut out);
    push_all(&mut out, text.as_slice());
    push_tail(&mut out);
    assert(out@ =~= write_frame_spec(encode_spec(data@)));
    Ok(out)
}

/// The frame that asks the terminal for the clipboard's content.
pub fn query_frame() -> (r: Vec<u8>)
    ensures
        r@ == query_frame_spec(),
{
    let mut out: Vec<u8> = Vec::new();
    push_head(&mut out);
    out.push(63);
    push_tail(&mut out);
    assert(out@ =~= query_frame_spec());
    out
}

/// An ASCII word character: a letter, a digit or `_`.
pub open spec fn is_word_byte(c: u8) -> bool {
    (48 <= c <= 57) || (65 <= c <= 90) || (97 <= c <= 122) || c == 95
}

/// Where the base64 text starts, if a reply's head `ESC ] 5 2 ; <sel>? ;`
/// stands complete at `p` in `buf`.
pub open spec fn reply_head_at(buf: Seq<u8>, p: int) -> Option<int> {
    if 0 <= p && p + 6 <= buf.len() && buf[p] == 27 && buf[p + 1] == 93 && buf[p + 2] == 53
        && buf[p + 3] == 50 && buf[p + 4] == 59 {
        if p + 7 <= buf.len() && is_word_byte(buf[p + 5]) && buf[p + 6] == 59 {
            Some(p + 7)
        } else if buf[p + 5] == 59 {
            Some(p + 6)
        } else {
            None
        }
    } else {
        None
    }
}

/// The end of the run of base64 bytes that starts at `i`.
pub open spec fn run_end(buf: Seq<u8>, i: int) -> int
    decreases buf.len() - i,
{
    if i < 0 || i >= buf.len() || !is_base64_byte(buf[i]) {
        i
    } else {
        run_end(buf, i + 1)
    }
}

/// The span of the base64 text of a complete reply that starts at `p`: the
/// head, the longest run of base64 bytes, and one byte that ends it.
pub open spec fn reply_at(buf: Seq<u8>, p: int) -> Option<(int, int)> {
    match reply_head_at(buf, p) {
        None => None,
        Some(s) => if run_end(buf, s) < buf.len() {
            Some((s, run_end(buf, s)))
        } else {
            None
        },
    }
}

/// The first complete reply that starts at `p` or later.
pub open spec fn first_reply_from(buf: Seq<u8>, p: int) -> Option<(int, int)>
    decreases buf.len() - p,
{
    if p < 0 || p >= buf.len() {
        None
    } else if reply_at(buf, p) is Some {
        reply_at(buf, p)
    } else {
        first_reply_from(buf, p + 1)
    }
}

/// The span of the base64 text of the first complete reply in `buf`.
pub open spec fn first_reply(buf: Seq<u8>) -> Option<(int, int)> {
    first_reply_from(buf, 0)
}

/// What the bytes received so far give: nothing yet, or the decoded content
/// of the first complete reply (or why its text did not decode).
pub open spec fn reply_result(buf: Seq<u8>) -> Option<Result<Seq<u8>, Base64DecodeError>> {
    match first_reply(buf) {
        None => None,
        Some((s, e)) => Some(decode_spec(buf.subrange(s, e))),
    }
}

proof fn lemma_run_end(buf: Seq<u8>, i: int)
    requires
        0 <= i <= buf.len(),
    ensures
        i <= run_end(buf, i) <= buf.len(),
        forall|j: int| i <= j < run_end(buf, i) ==> is_base64_byte(#[trigger] buf[j]),
        run_end(buf, i) < buf.len() ==> !is_base64_byte(buf[run_end(buf, i)]),
    decreases buf.len() - i,
{
    if i < buf.len() && is_base64_byte(buf[i]) {
        lemma_run_end(buf, i + 1);
    }
}

proof fn lemma_reply_at_bounds(buf: Seq<u8>, p: int)
    requires
        reply_at(buf, p) is Some,
    ensures
        match reply_at(buf, p) {
            Some((s, e)) => 0 <= p && p + 6 <= s <= e < buf.len(),
            None => false,
        },
{
    lemma_run_end(buf, reply_head_at(buf, p)->0);
}

proof fn lemma_first_reply_from_bounds(buf: Seq<u8>, p: int)
    requires
        first_reply_from(buf, p) is Some,
    ensures
        match first_reply_from(buf, p) {
            Some((s, e)) => 0 <= s && p + 6 <= s <= e < buf.len(),
            None => false,
        },
    decreases buf.len() - p,
{
    if reply_at(buf, p) is Some {
        lemma_reply_at_bounds(buf, p);
    } else {
        lemma_first_reply_from_bounds(buf, p + 1);
    }
}

fn is_base64_char(c: u8) -> (r: bool)
    ensures
        r == is_base64_byte(c),
{
    (65 <= c && c <= 90) || (97 <= c && c <= 122) || (48 <= c && c <= 57) || c == 43 || c == 47
        || c == 61
}

fn is_word_char(c: u8) -> (r: bool)
    ensures
        r == is_word_byte(c),
{
    (48 <= c && c <= 57) || (65 <= c && c <= 90) || (97 <= c && c <= 122) || c == 95
}

fn reply_head(buf: &[u8], p: usize) -> (r: Option<usize>)
    ensures
        match reply_head_at(buf@, p as int) {
            None => r is None,
            Some(s) => r == Some(s as usize),
        },
{
    let len = buf.len();
    if p <= len && len - p >= 6 && buf[p] == 27 && buf[p + 1] == 93 && buf[p + 2] == 53 && buf[p
        + 3] == 50 && buf[p + 4] == 59 {
        if len - p >= 7 && is_word_char(buf[p + 5]) && buf[p + 6] == 59 {
            Some(p + 7)
        } else if buf[p + 5] == 59 {
            Some(p + 6)
        } else {
            None
        }
    } else {
        None
    }
}

fn reply_span(buf: &[u8], p: usize) -> (r: Option<(usize, usize)>)
    ensures
        match reply_at(buf@, p as int) {
            None => r is None,
            Some((s, e)) => r == Some((s as usize, e as usize)),
        },
{
    let s = match reply_head(buf, p) {
        None => return None,
        Some(s) => s,
    };
    let mut i = s;
    while i < buf.len() && is_base64_char(buf[i])
        invariant
            s <= i <= buf@.len(),
            run_end(buf@, s as int) == run_end(buf@, i as int),
        decreases buf@.len() - i,
    {
        i = i + 1;
    }
    if i < buf.len() {
        Some((s, i))
    } else {
        None
    }
}

/// Finds the base64 text of the first complete reply in `buf`, as the span
/// `(start, end)` of its bytes.
pub fn find_reply(buf: &[u8]) -> (r: Option<(usize, usize)>)
    ensures
        match first_reply(buf@) {
            None => r is None,
            Some((s, e)) => r == Some((s as usize, e as usize)),
        },
{
    let mut p: usize = 0;
    while p < buf.len()
        invariant
            p <= buf@.len(),
            first_reply(buf@) == first_reply_from(buf@, p as int),
        decreases buf@.len() - p,
    {
        if let Some(span) = reply_span(buf, p) {
            return Some(span);
        }
        p = p + 1;
    }
    None
}

/// Decodes the content of the first complete reply in `buf`; `None` while
/// no reply is complete.
pub fn reply_content(buf: &[u8]) -> (r: Option<Result<Vec<u8>, Base64DecodeError>>)
    ensures
        match reply_result(buf@) {
            None => r is None,
            Some(Ok(b)) => r is Some && r->0 is Ok && r->0->Ok_0@ == b,
            Some(Err(e)) => r == Some(Err::<Vec<u8>, Base64DecodeError>(e)),
        },
{
    let len = buf.len();
    let found = find_reply(buf);
    match found {
        None => None,
        Some((s, e)) => {
            proof {
                assert(first_reply(buf@) is Some);
                lemma_first_reply_from_bounds(buf@, 0);
                let (s0, e0) = first_reply(buf@)->0;
                assert(0 <= s0 <= e0 < len);
                assert(s0 == s && e0 == e);
            }
            let text = slice_subrange(buf, s, e);
            Some(decode_bytes(text))
        },
    }
}

proof fn lemma_run_end_extend(buf: Seq<u8>, more: Seq<u8>, i: int)
    requires
        0 <= i <= buf.len(),
        run_end(buf, i) < buf.len(),
    ensures
        run_end(buf + more, i) == run_end(buf, i),
    decreases buf.len() - i,
{
    let ext = buf + more;
    assert(ext[i] == buf[i]);
    if is_base64_byte(buf[i]) {
        lemma_run_end_extend(buf, more, i + 1);
    }
}

proof fn lemma_first_reply_from_extend(buf: Seq<u8>, more: Seq<u8>, p: int)
    requires
        0 <= p,
        first_reply_from(buf, p) is Some,
    ensures
        first_reply_from(buf + more, p) == first_reply_from(buf, p),
    decreases buf.len() - p,
{
    let ext = buf + more;
    lemma_first_reply_from_bounds(buf, p);
    if reply_at(buf, p) is Some {
        lemma_reply_at_bounds(buf, p);
        let (s, e) = reply_at(buf, p)->0;
        assert forall|i: int| 0 <= i < buf.len() implies #[trigger] ext[i] == buf[i] by {}
        assert(reply_head_at(ext, p) == reply_head_at(buf, p));
        lemma_run_end_extend(buf, more, s);
    } else {
        lemma_first_reply_from_extend(buf, more, p + 1);
        let (s1, e1) = first_reply_from(buf, p + 1)->0;
        lemma_first_reply_from_bounds(buf, p + 1);
        assert forall|i: int| 0 <= i < buf.len() implies #[trigger] ext[i] == buf[i] by {}
        assert(reply_head_at(ext, p) == reply_head_at(buf, p));
        if reply_head_at(buf, p) is Some {
            let sp = reply_head_at(buf, p)->0;
            lemma_run_end(buf, sp);
            assert(run_end(buf, sp) == buf.len());
            lemma_first_reply_from_end(buf, p + 1);
            assert(is_base64_byte(buf[e1]));
        }
    }
}

proof fn lemma_first_reply_from_end(buf: Seq<u8>, p: int)
    requires
        first_reply_from(buf, p) is Some,
    ensures
        match first_reply_from(buf, p) {
            Some((s, e)) => !is_base64_byte(buf[e]),
            None => false,
        },
    decreases buf.len() - p,
{
    if reply_at(buf, p) is Some {
        let s = reply_head_at(buf, p)->0;
        lemma_reply_at_bounds(buf, p);
        lemma_run_end(buf, s);
    } else {
        lemma_first_reply_from_end(buf, p + 1);
    }
}

/// Once the bytes received hold a complete reply, more bytes do not change
/// what they give: the scan may stop at the first complete reply, however the
/// stream was split into reads.
pub proof fn lemma_reply_stable(buf: Seq<u8>, more: Seq<u8>)
    requires
        reply_result(buf) is Some,
    ensures
        reply_result(buf + more) == reply_result(buf),
        first_reply(buf + more) == first_reply(buf),
{
    lemma_first_reply_from_extend(buf, more, 0);
    lemma_first_reply_from_bounds(buf, 0);
    let (s, e) = first_reply(buf)->0;
    assert((buf + more).subrange(s, e) =~= buf.subrange(s, e));
}

/// Collects the bytes that the terminal sends after a read query, one read at
/// a time, until they hold a complete reply. Bytes are only ever appended.
pub struct ReplyScanner {
    buf: Vec<u8>,
}

impl View for ReplyScanner {
    type V = Seq<u8>;

    /// The bytes received so far.
    closed spec fn view(&self) -> Seq<u8> {
        self.buf@
    }
}

impl ReplyScanner {
    /// A scanner that has received nothing.
    pub fn new() -> (r: ReplyScanner)
        ensures
            r@ == Seq::<u8>::empty(),
    {
        ReplyScanner { buf: Vec::new() }
    }

    /// The bytes received so far.
    pub fn received(&self) -> (r: &[u8])
        ensures
            r@ == self@,
    {
        self.buf.as_slice()
    }

    /// Appends the bytes of one read and scans everything received for the
    /// first complete reply: `None` while there is none, else its decoded
    /// content.
    pub fn feed(&mut self, chunk: &[u8]) -> (r: Option<Result<Vec<u8>, Base64DecodeError>>)
        ensures
            final(self)@ == old(self)@ + chunk@,
            match reply_result(final(self)@) {
                None => r is None,
                Some(Ok(b)) => r is Some && r->0 is Ok && r->0->Ok_0@ == b,
                Some(Err(e)) => r == Some(Err::<Vec<u8>, Base64DecodeError>(e)),
            },
    {
        push_all(&mut self.buf, chunk);
        reply_content(self.buf.as_slice())
    }
}

/// A write request read back as a reply gives the content that was written:
/// the scanner reads the frame that `write_frame` builds for `data` (a reply
/// with no selection character) as `data`.
pub proof fn lemma_write_frame_read_back(data: Seq<u8>)
    ensures
        reply_result(write_frame_spec(encode_spec(data))) == Some(
            Ok::<Seq<u8>, Base64DecodeError>(data),
        ),
{
    let text = encode_spec(data);
    let frame = write_frame_spec(text);
    let n = text.len() as int;
    lemma_encode_layout(data);
    assert(frame.len() == n + 8);
    assert forall|i: int| 0 <= i < text.len() implies #[trigger] frame[6 + i] == text[i] by {}
    assert(frame[6 + n] == 27);
    assert(reply_head_at(frame, 0) == Some(6int));
    assert forall|i: int| 6 <= i <= 6 + n implies run_end(frame, i) == 6 + n by {
        lemma_run_end_from(frame, i, 6 + n);
    }
    assert(reply_at(frame, 0) == Some((6int, 6 + n)));
    assert(frame.subrange(6, 6 + n) =~= text);
    lemma_round_trip(data);
}

proof fn lemma_run_end_from(buf: Seq<u8>, i: int, e: int)
    requires
        0 <= i <= e < buf.len(),
        forall|j: int| i <= j < e ==> is_base64_byte(#[trigger] buf[j]),
        !is_base64_byte(buf[e]),
    ensures
        run_end(buf, i) == e,
    decreases e - i,
{
    if i < e {
        lemma_run_end_from(buf, i + 1, e);
    }
}

} // verus!
