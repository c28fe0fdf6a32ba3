//! Probing whether the terminal knows private mode 5522, through the DECRQM
//! exchange: the query `ESC [ ? 5 5 2 2 $ p` is answered by
//! `ESC [ ? 5 5 2 2 ; <code> $ y`, where a code of 0 (unknown mode) or 4
//! (permanently reset) means the mode is not available.
use vstd::prelude::*;
use vstd::slice::slice_subrange;

verus! {

/// How a mode report could not be read.
#[derive(Debug, Clone, Copy, PartialEq, Eq, Structural)]
pub enum ModeReportError {
    /// The report's code is not a decimal number that fits in `u32`.
    CodeNotANumber,
}

/// The head `ESC [ ? 5 5 2 2 ;` of a report on mode 5522.
pub open spec fn report_head() -> Seq<u8> {
    seq![27u8, 91u8, 63u8, 53u8, 53u8, 50u8, 50u8, 59u8]
}

/// The query `ESC [ ? 5 5 2 2 $ p`.
pub open spec fn mode_query_spec() -> Seq<u8> {
    seq![27u8, 91u8, 63u8, 53u8, 53u8, 50u8, 50u8, 36u8, 112u8]
}

/// The first line feed at or after `i`, or the end of `buf`.
pub open spec fn line_end(buf: Seq<u8>, i: int) -> int
    decreases buf.len() - i,
{
    if i < 0 || i >= buf.len() || buf[i] == 10 {
        i
    } else {
        line_end(buf, i + 1)
    }
}

/// `$ y` stands at `i`.
pub open spec fn is_report_tail_at(buf: Seq<u8>, i: int) -> bool {
    0 <= i && i + 2 <= buf.len() && buf[i] == 36 && buf[i + 1] == 121
}

/// The last `i` in `s..=j` at which `$ y` stands.
pub open spec fn last_tail(buf: Seq<u8>, s: int, j: int) -> Option<int>
    decreases j - s + 1,
{
    if j < s {
        None
    } else if is_report_tail_at(buf, j) {
        Some(j)
    } else {
        last_tail(buf, s, j - 1)
    }
}

/// The span of the code of a report that starts at `p`: after the head, up
/// to the last `$ y` that the line holds.
pub open spec fn report_at(buf: Seq<u8>, p: int) -> Option<(int, int)> {
    if 0 <= p && p + 8 <= buf.len() && buf.subrange(p, p + 8) == report_head() {
        match last_tail(buf, p + 8, line_end(buf, p + 8) - 2) {
            None => None,
            Some(e) => Some((p + 8, e)),
        }
    } else {
        None
    }
}

/// The first report that starts at `p` or later.
pub open spec fn first_report_from(buf: Seq<u8>, p: int) -> Option<(int, int)>
    decreases buf.len() - p,
{
    if p < 0 || p >= buf.len() {
        None
    } else if report_at(buf, p) is Some {
        report_at(buf, p)
    } else {
        first_report_from(buf, p + 1)
    }
}

/// The value of a sequence of decimal digits.
pub open spec fn digits_value(d: Seq<u8>) -> int
    decreases d.len(),
{
    if d.len() == 0 {
        0
    } else {
        digits_value(d.drop_last()) * 10 + (d.last() - 48)
    }
}

/// All of `d` are decimal digits.
pub open spec fn all_digits(d: Seq<u8>) -> bool {
    forall|i: int| 0 <= i < d.len() ==> 48 <= #[trigger] d[i] <= 57
}

/// What follows an optional leading `+`.
pub open spec fn unsigned_digits(t: Seq<u8>) -> Seq<u8> {
    if t.len() > 0 && t[0] == 43 {
        t.skip(1)
    } else {
        t
    }
}

/// A decimal number, with an optional `+`, that fits in `u32`.
pub open spec fn parse_u32_spec(t: Seq<u8>) -> Option<u32> {
    let d = unsigned_digits(t);
    if d.len() > 0 && all_digits(d) && digits_value(d) <= u32::MAX {
        Some(digits_value(d) as u32)
    } else {
        None
    }
}

/// Whether a report's code says that the mode is available.
pub open spec fn code_supported(code: u32) -> bool {
    code != 0 && code != 4
}

/// What the bytes received so far say: nothing yet, or whether the mode is
/// available according to the first report.
pub open spec fn mode_report_spec(buf: Seq<u8>) -> Option<Result<bool, ModeReportError>> {
    match first_report_from(buf, 0) {
        None => None,
        Some((s, e)) => match parse_u32_spec(buf.subrange(s, e)) {
            None => Some(Err(ModeReportError::CodeNotANumber)),
            Some(code) => Some(Ok(code_supported(code))),
        },
    }
}

/// The query that asks whether mode 5522 is available.
pub fn mode_query() -> (r: Vec<u8>)
    ensures
        r@ == mode_query_spec(),
{
    let r = vec![27u8, 91, 63, 53, 53, 50, 50, 36, 112];
    assert(r@ =~= mode_query_spec());
    r
}

fn head_at(buf: &[u8], p: usize) -> (r: bool)
    requires
        p + 8 <= buf@.len(),
    ensures
        r == (buf@.subrange(p as int, p + 8) == report_head()),
{
    let r = buf[p] == 27 && buf[p + 1] == 91 && buf[p + 2] == 63 && buf[p + 3] == 53 && buf[p + 4]
        == 53 && buf[p + 5] == 50 && buf[p + 6] == 50 && buf[p + 7] == 59;
    if r {
        assert(buf@.subrange(p as int, p + 8) =~= report_head());
    } else {
        assert(buf@.subrange(p as int, p + 8) != report_head()) by {
            let h = buf@.subrange(p as int, p + 8);
            if h == report_head() {
                assert(h[0] == buf@[p as int] && h[1] == buf@[p + 1] && h[2] == buf@[p + 2] && h[3]
                    == buf@[p + 3]);
                assert(h[4] == buf@[p + 4] && h[5] == buf@[p + 5] && h[6] == buf@[p + 6] && h[7]
                    == buf@[p + 7]);
            }
        }
    }
    r
}

proof fn lemma_line_end(buf: Seq<u8>, i: int)
    requires
        0 <= i <= buf.len(),
    ensures
        i <= line_end(buf, i) <= buf.len(),
    decreases buf.len() - i,
{
    if i < buf.len() && buf[i] != 10 {
        lemma_line_end(buf, i + 1);
    }
}

fn report_span(buf: &[u8], p: usize) -> (r: Option<(usize, usize)>)
    ensures
        match report_at(buf@, p as int) {
            None => r is None,
            Some((s, e)) => r == Some((s as usize, e as usize)),
        },
{
    let len = buf.len();
    if p > len || len - p < 8 || !head_at(buf, p) {
        return None;
    }
    let s = p + 8;
    let mut end = s;
    while end < len && buf[end] != 10
        invariant
            s <= end <= len,
            len == buf@.len(),
            s == p + 8,
            buf@.subrange(p as int, p + 8) == report_head(),
            line_end(buf@, s as int) == line_end(buf@, end as int),
        decreases len - end,
    {
        end = end + 1;
    }
    assert(line_end(buf@, end as int) == end);
    // Search backwards from the last position where `$ y` fits on the line.
    if end - s < 2 {
        return None;
    }
    let mut j = end - 2;
    loop
        invariant
            s <= j,
            j + 2 <= end <= len,
            len == buf@.len(),
            s == p + 8,
            buf@.subrange(p as int, p + 8) == report_head(),
            line_end(buf@, s as int) == end,
            last_tail(buf@, s as int, end - 2) == last_tail(buf@, s as int, j as int),
        decreases j - s,
    {
        if buf[j] == 36 && buf[j + 1] == 121 {
            return Some((s, j));
        }
        if j == s {
            assert(last_tail(buf@, s as int, s - 1) is None);
            return None;
        }
        j = j - 1;
    }
}

/// Finds the code of the first report on mode 5522 in `buf`, as the span
/// `(start, end)` of its bytes.
pub fn find_mode_report(buf: &[u8]) -> (r: Option<(usize, usize)>)
    ensures
        match first_report_from(buf@, 0) {
            None => r is None,
            Some((s, e)) => r == Some((s as usize, e as usize)),
        },
{
    let mut p: usize = 0;
    while p < buf.len()
        invariant
            p <= buf@.len(),
            first_report_from(buf@, 0) == first_report_from(buf@, p as int),
        decreases buf@.len() - p,
    {
        if let Some(span) = report_span(buf, p) {
            return Some(span);
        }
        p = p + 1;
    }
    None
}

proof fn lemma_digits_value_grows(d: Seq<u8>, k: int)
    requires
        0 <= k <= d.len(),
        all_digits(d),
    ensures
        0 <= digits_value(d.take(k)) <= digits_value(d),
    decreases d.len() - k,
{
    if k < d.len() {
        lemma_digits_value_grows(d, k + 1);
        assert(d.take(k + 1).drop_last() =~= d.take(k));
        assert(d.take(k + 1).last() == d[k]);
    } else {
        assert(d.take(k) =~= d);
        lemma_digits_value_nonneg(d);
    }
}

proof fn lemma_digits_value_nonneg(d: Seq<u8>)
    requires
        all_digits(d),
    ensures
        0 <= digits_value(d),
    decreases d.len(),
{
    if d.len() > 0 {
        lemma_digits_value_nonneg(d.drop_last());
    }
}

/// Reads a decimal number with an optional leading `+`, as `str::parse`
/// does for `u32`.
pub fn parse_u32(t: &[u8]) -> (r: Option<u32>)
    ensures
        r == parse_u32_spec(t@),
{
    let len = t.len();
    let start: usize = if len > 0 && t[0] == 43 { 1 } else { 0 };
    let ghost d = unsigned_digits(t@);
    assert(d =~= t@.skip(start as int));
    if start == len {
        return None;
    }
    let mut acc: u64 = 0;
    let mut i: usize = start;
    while i < len
        invariant
            start <= i <= len,
            len == t@.len(),
            d == t@.skip(start as int),
            d == unsigned_digits(t@),
            all_digits(d.take(i - start)),
            acc == digits_value(d.take(i - start)),
            acc <= u32::MAX,
        decreases len - i,
    {
        let c = t[i];
        let ghost k = i - start;
        assert(d[k] == c);
        assert(d.take(k + 1).drop_last() =~= d.take(k));
        if c < 48 || c > 57 {
            assert(!all_digits(d));
            return None;
        }
        assert(all_digits(d.take(k + 1)));
        assert(d.take(k + 1).last() == c);
        acc = acc * 10 + (c - 48) as u64;
        assert(acc == digits_value(d.take(k + 1)));
        if acc > u32::MAX as u64 {
            proof {
                if all_digits(d) {
                    lemma_digits_value_grows(d, k + 1);
                }
            }
            return None;
        }
        i = i + 1;
    }
    assert(d.take(len - start) =~= d);
    Some(acc as u32)
}

/// What the bytes received after the mode query say: `None` while they hold
/// no complete report, else whether mode 5522 is available.
pub fn mode_report(buf: &[u8]) -> (r: Option<Result<bool, ModeReportError>>)
    ensures
        r == mode_report_spec(buf@),
{
    let len = buf.len();
    match find_mode_report(buf) {
        None => None,
        Some((s, e)) => {
            proof {
                assert(first_report_from(buf@, 0) is Some);
                lemma_first_report_bounds(buf@, 0);
                let (s0, e0) = first_report_from(buf@, 0)->0;
                assert(0 <= s0 <= e0 <= len);
                assert(s0 == s && e0 == e);
            }
            match parse_u32(slice_subrange(buf, s, e)) {
                None => Some(Err(ModeReportError::CodeNotANumber)),
                Some(code) => Some(Ok(code != 0 && code != 4)),
            }
        },
    }
}

proof fn lemma_last_tail_bounds(buf: Seq<u8>, s: int, j: int)
    requires
        last_tail(buf, s, j) is Some,
    ensures
        match last_tail(buf, s, j) {
            Some(e) => s <= e <= j && e + 2 <= buf.len(),
            None => false,
        },
    decreases j - s + 1,
{
    if !is_report_tail_at(buf, j) {
        lemma_last_tail_bounds(buf, s, j - 1);
    }
}

proof fn lemma_first_report_bounds(buf: Seq<u8>, p: int)
    requires
        first_report_from(buf, p) is Some,
    ensures
        match first_report_from(buf, p) {
            Some((s, e)) => 0 <= s <= e <= buf.len(),
            None => false,
        },
    decreases buf.len() - p,
{
    if report_at(buf, p) is Some {
        lemma_line_end(buf, p + 8);
        lemma_last_tail_bounds(buf, p + 8, line_end(buf, p + 8) - 2);
    } else {
        lemma_first_report_bounds(buf, p + 1);
    }
}

} // verus!
