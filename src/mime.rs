//! Which MIME types name text, and what that means for copied content.
use vstd::prelude::*;
use vstd::string::StringSliceAdditionalSpecFns;

verus! {

/// `s` starts with `p`.
pub open spec fn has_prefix(s: Seq<u8>, p: Seq<u8>) -> bool {
    p.len() <= s.len() && s.take(p.len() as int) == p
}

/// `s` ends with `p`.
pub open spec fn has_suffix(s: Seq<u8>, p: Seq<u8>) -> bool {
    p.len() <= s.len() && s.skip(s.len() - p.len()) == p
}

/// `p` occurs somewhere in `s`.
pub open spec fn has_infix(s: Seq<u8>, p: Seq<u8>) -> bool {
    exists|i: int| 0 <= i && i + p.len() <= s.len() && #[trigger] s.subrange(i, i + p.len()) == p
}

/// A MIME type (as the bytes of its name) that names text: the X11 text
/// atoms `TEXT`, `STRING` and `UTF8_STRING`, any `text/` type, and the
/// common script and markup types.
pub open spec fn is_text_spec(m: Seq<u8>) -> bool {
    m == seq![84u8, 69u8, 88u8, 84u8] || m == seq![83u8, 84u8, 82u8, 73u8, 78u8, 71u8] || m
        == seq![85u8, 84u8, 70u8, 56u8, 95u8, 83u8, 84u8, 82u8, 73u8, 78u8, 71u8] || has_prefix(
        m,
        seq![116u8, 101u8, 120u8, 116u8, 47u8],
    ) || has_infix(m, seq![106u8, 115u8, 111u8, 110u8]) || has_suffix(
        m,
        seq![115u8, 99u8, 114u8, 105u8, 112u8, 116u8],
    ) || has_suffix(m, seq![120u8, 109u8, 108u8]) || has_suffix(m, seq![121u8, 97u8, 109u8, 108u8])
        || has_suffix(m, seq![99u8, 115u8, 118u8]) || has_suffix(m, seq![105u8, 110u8, 105u8])
}

fn equal_at(s: &[u8], start: usize, p: &[u8]) -> (r: bool)
    requires
        start + p@.len() <= s@.len(),
    ensures
        r == (s@.subrange(start as int, start + p@.len()) == p@),
{
    let len = s.len();
    let mut i: usize = 0;
    while i < p.len()
        invariant
            len == s@.len(),
            start + p@.len() <= s@.len(),
            i <= p@.len(),
            forall|j: int| 0 <= j < i ==> s@[start + j] == p@[j],
        decreases p@.len() - i,
    {
        if s[start + i] != p[i] {
            assert(s@.subrange(start as int, start + p@.len())[i as int] != p@[i as int]);
            return false;
        }
        i = i + 1;
    }
    assert(s@.subrange(start as int, start + p@.len()) =~= p@);
    true
}

fn starts_with(s: &[u8], p: &[u8]) -> (r: bool)
    ensures
        r == has_prefix(s@, p@),
{
    if p.len() > s.len() {
        return false;
    }
    let r = equal_at(s, 0, p);
    assert(s@.subrange(0, p@.len() as int) == s@.take(p@.len() as int));
    r
}

fn ends_with(s: &[u8], p: &[u8]) -> (r: bool)
    ensures
        r == has_suffix(s@, p@),
{
    if p.len() > s.len() {
        return false;
    }
    let r = equal_at(s, s.len() - p.len(), p);
    assert(s@.subrange(s@.len() - p@.len(), s@.len() as int) == s@.skip(s@.len() - p@.len()));
    r
}

fn contains(s: &[u8], p: &[u8]) -> (r: bool)
    ensures
        r == has_infix(s@, p@),
{
    if p.len() > s.len() {
        return false;
    }
    let last = s.len() - p.len();
    let mut i: usize = 0;
    loop
        invariant
            last == s@.len() - p@.len(),
            i <= last,
            forall|j: int| 0 <= j < i ==> #[trigger] s@.subrange(j, j + p@.len()) != p@,
        decreases last - i,
    {
        if equal_at(s, i, p) {
            return true;
        }
        if i == last {
            return false;
        }
        i = i + 1;
    }
}

fn equals(s: &[u8], p: &[u8]) -> (r: bool)
    ensures
        r == (s@ == p@),
{
    if s.len() != p.len() {
        return false;
    }
    let r = equal_at(s, 0, p);
    assert(s@.subrange(0, p@.len() as int) =~= s@);
    r
}

/// Whether the MIME type `mime_type` names text.
pub fn is_text(mime_type: &str) -> (r: bool)
    ensures
        r == is_text_spec(mime_type.spec_bytes()),
{
    let m = mime_type.as_bytes();
    // TEXT
    let text = vec![84u8, 69u8, 88u8, 84u8];
    // STRING
    let string = vec![83u8, 84u8, 82u8, 73u8, 78u8, 71u8];
    // UTF8_STRING
    let utf8_string = vec![85u8, 84u8, 70u8, 56u8, 95u8, 83u8, 84u8, 82u8, 73u8, 78u8, 71u8];
    // text/
    let text_slash = vec![116u8, 101u8, 120u8, 116u8, 47u8];
    // json
    let json = vec![106u8, 115u8, 111u8, 110u8];
    // script
    let script = vec![115u8, 99u8, 114u8, 105u8, 112u8, 116u8];
    // xml
    let xml = vec![120u8, 109u8, 108u8];
    // yaml
    let yaml = vec![121u8, 97u8, 109u8, 108u8];
    // csv
    let csv = vec![99u8, 115u8, 118u8];
    // ini
    let ini = vec![105u8, 110u8, 105u8];
    equals(m, text.as_slice()) || equals(m, string.as_slice()) || equals(m, utf8_string.as_slice())
        || starts_with(m, text_slash.as_slice()) || contains(m, json.as_slice()) || ends_with(
        m,
        script.as_slice(),
    ) || ends_with(m, xml.as_slice()) || ends_with(m, yaml.as_slice()) || ends_with(
        m,
        csv.as_slice(),
    ) || ends_with(m, ini.as_slice())
}

/// Whether a copy of content of type `mime_type` loses its final line feed,
/// given whether trimming was asked for.
pub open spec fn trims_newline(data: Seq<u8>, trim: bool, mime_type: Option<Seq<u8>>) -> bool {
    trim && mime_type is Some && is_text_spec(mime_type->0) && data.len() > 0 && data.last() == 10
}

/// Drops the final line feed of `data` where trimming was asked for, the
/// content's type is known and names text, and `data` ends in a line feed.
pub fn trim_trailing_newline(data: &mut Vec<u8>, trim: bool, mime_type: Option<&str>)
    ensures
        trims_newline(
            old(data)@,
            trim,
            match mime_type {
                Some(m) => Some(m.spec_bytes()),
                None => None,
            },
        ) ==> final(data)@ == old(data)@.drop_last(),
        !trims_newline(
            old(data)@,
            trim,
            match mime_type {
                Some(m) => Some(m.spec_bytes()),
                None => None,
            },
        ) ==> final(data)@ == old(data)@,
{
    if !trim {
        return;
    }
    if let Some(m) = mime_type {
        if is_text(m) && data.len() > 0 && data[data.len() - 1] == 10 {
            data.pop();
        }
    }
}

} // verus!
