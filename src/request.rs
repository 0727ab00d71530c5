use vstd::prelude::*;
use vstd::string::*;
use vstd::utf8::*;

use crate::text::{is_ascii_ws, lemma_boundary_after_ascii, slice_str, utf8_text};

verus! {

/// Why a request buffer could not be read as a request line.
#[derive(Debug, PartialEq, Eq, Structural)]
pub enum HTTPRequestError {
    NoMethod,
    NoPath,
    Utf8Error,
}

impl HTTPRequestError {
    /// The message that describes the error to a person.
    pub fn to_string(&self) -> (r: &'static str)
        ensures
            *self == HTTPRequestError::NoMethod ==> r@
                == "Request does not have an associated HTTP method"@,
            *self == HTTPRequestError::NoPath ==> r@
                == "Request does not have an associated request path"@,
            *self == HTTPRequestError::Utf8Error ==> r@
                == "Request contains invalid Utf8 characters"@,
    {
        match self {
            HTTPRequestError::NoMethod => "Request does not have an associated HTTP method",
            HTTPRequestError::NoPath => "Request does not have an associated request path",
            HTTPRequestError::Utf8Error => "Request contains invalid Utf8 characters",
        }
    }
}

/// The method and the path of a request line, borrowed from the buffer that
/// held it.
#[derive(Debug)]
pub struct HTTPRequest<'a> {
    pub method: &'a str,
    pub filepath: &'a str,
}

/// Reading `s` from the left: the words that whitespace has closed so far,
/// and the word still being read.
pub open spec fn word_scan(s: Seq<u8>) -> (Seq<Seq<u8>>, Seq<u8>)
    decreases s.len(),
{
    if s.len() == 0 {
        (Seq::empty(), Seq::empty())
    } else {
        let (done, cur) = word_scan(s.drop_last());
        if is_ascii_ws(s.last()) {
            (if cur.len() > 0 { done.push(cur) } else { done }, Seq::empty())
        } else {
            (done, cur.push(s.last()))
        }
    }
}

/// The words of `s`: its maximal runs of bytes that are not ASCII
/// whitespace, as `str::split_ascii_whitespace` yields them.
pub open spec fn words(s: Seq<u8>) -> Seq<Seq<u8>> {
    let (done, cur) = word_scan(s);
    if cur.len() > 0 {
        done.push(cur)
    } else {
        done
    }
}

/// Where the words of `s` lie: each span is a word, and ASCII whitespace or
/// an end of `s` borders it on both sides.
pub open spec fn spans_of_words(s: Seq<u8>, spans: Seq<(usize, usize)>, ws: Seq<Seq<u8>>) -> bool {
    &&& spans.len() == ws.len()
    &&& forall|k: int|
        0 <= k < spans.len() ==> {
            let (a, b) = #[trigger] spans[k];
            &&& a <= b <= s.len()
            &&& s.subrange(a as int, b as int) == ws[k]
            &&& (a == 0 || is_ascii_ws(s[a - 1]))
            &&& (b == s.len() || is_ascii_ws(s[b as int]))
        }
}

fn ws_byte(b: u8) -> (r: bool)
    ensures
        r == is_ascii_ws(b),
{
    b == 0x20 || b == 0x09 || b == 0x0a || b == 0x0c || b == 0x0d
}

/// The position of the first line feed of `s` at or after `from`, or the
/// length of `s` where there is none.
pub open spec fn line_end(s: Seq<u8>, from: int) -> int
    decreases s.len() - from,
{
    if from < 0 || from >= s.len() {
        s.len() as int
    } else if s[from] == 0x0au8 {
        from
    } else {
        line_end(s, from + 1)
    }
}

/// The first line of `s`, without its line feed.
pub open spec fn first_line(s: Seq<u8>) -> Seq<u8> {
    s.subrange(0, line_end(s, 0))
}

fn find_line_end(s: &[u8]) -> (r: usize)
    ensures
        r == line_end(s@, 0),
        r <= s@.len(),
        r < s@.len() ==> s@[r as int] == 0x0au8,
{
    let mut i: usize = 0;
    while i < s.len()
        invariant
            i <= s@.len(),
            line_end(s@, 0) == line_end(s@, i as int),
        decreases s@.len() - i,
    {
        if s[i] == 0x0a {
            return i;
        }
        i = i + 1;
    }
    i
}

fn word_spans(s: &[u8], end: usize) -> (r: Vec<(usize, usize)>)
    requires
        end <= s@.len(),
    ensures
        spans_of_words(s@.subrange(0, end as int), r@, words(s@.subrange(0, end as int))),
{
    let ghost t = s@.subrange(0, end as int);
    let mut spans: Vec<(usize, usize)> = Vec::new();
    let mut start: usize = 0;
    let mut i: usize = 0;
    assert(t.subrange(0, 0) =~= Seq::<u8>::empty());
    while i < end
        invariant
            end <= s@.len(),
            t == s@.subrange(0, end as int),
            start <= i <= end,
            start == 0 || is_ascii_ws(t[start - 1]),
            word_scan(t.subrange(0, i as int)).1 == t.subrange(start as int, i as int),
            spans_of_words(t, spans@, word_scan(t.subrange(0, i as int)).0),
            forall|k: int| 0 <= k < spans@.len() ==> (#[trigger] spans@[k]).1 < i,
        decreases end - i,
    {
        assert(t.subrange(0, i + 1).drop_last() =~= t.subrange(0, i as int));
        assert(t[i as int] == s@[i as int]);
        let ghost done = word_scan(t.subrange(0, i as int)).0;
        if ws_byte(s[i]) {
            if start < i {
                spans.push((start, i));
                assert(spans_of_words(t, spans@, done.push(t.subrange(start as int, i as int))));
            }
            start = i + 1;
        } else {
            assert(t.subrange(start as int, i as int).push(t[i as int]) =~= t.subrange(
                start as int,
                i + 1,
            ));
        }
        i = i + 1;
    }
    assert(t.subrange(0, i as int) =~= t);
    let ghost done = word_scan(t).0;
    if start < i {
        spans.push((start, i));
        assert(spans_of_words(t, spans@, done.push(t.subrange(start as int, i as int))));
    }
    spans
}

impl<'a> HTTPRequest<'a> {
    /// Reads a request line, the first line of `buffer`: it must hold
    /// exactly three words, the method, the path and the protocol version.
    /// A line without words has no method; any other count of words is taken
    /// as a line without a proper path.
    pub fn new(buffer: &'a [u8]) -> (r: Result<HTTPRequest<'a>, HTTPRequestError>)
        ensures
            !valid_utf8(buffer@) ==> r == Err::<HTTPRequest<'a>, _>(HTTPRequestError::Utf8Error),
            valid_utf8(buffer@) && words(first_line(buffer@)).len() == 0 ==> r == Err::<
                HTTPRequest<'a>,
                _,
            >(HTTPRequestError::NoMethod),
            valid_utf8(buffer@) && words(first_line(buffer@)).len() != 0 && words(
                first_line(buffer@),
            ).len() != 3 ==> r == Err::<HTTPRequest<'a>, _>(HTTPRequestError::NoPath),
            valid_utf8(buffer@) && words(first_line(buffer@)).len() == 3 ==> (r matches Ok(req)
                && req.method.spec_bytes() == words(first_line(buffer@))[0]
                && req.filepath.spec_bytes() == words(first_line(buffer@))[1]),
    {
        let text = match utf8_text(buffer) {
            Some(t) => t,
            None => return Err(HTTPRequestError::Utf8Error),
        };
        let bytes = text.as_bytes();
        let end = find_line_end(bytes);
        let spans = word_spans(bytes, end);
        if spans.len() == 0 {
            return Err(HTTPRequestError::NoMethod);
        }
        if spans.len() != 3 {
            return Err(HTTPRequestError::NoPath);
        }
        let (m0, m1) = spans[0];
        let (p0, p1) = spans[1];
        proof {
            let s = buffer@;
            let t = s.subrange(0, end as int);
            is_char_boundary_start_end_of_seq(s);
            assert(spans@[0] == (m0, m1));
            assert(spans@[1] == (p0, p1));
            if m0 > 0 {
                assert(t[m0 - 1] == s[m0 - 1]);
                lemma_boundary_after_ascii(s, m0 - 1);
            }
            if p0 > 0 {
                assert(t[p0 - 1] == s[p0 - 1]);
                lemma_boundary_after_ascii(s, p0 - 1);
            }
            if m1 < s.len() {
                is_char_boundary_iff_not_is_continuation_byte(s, m1 as int);
            }
            if p1 < s.len() {
                is_char_boundary_iff_not_is_continuation_byte(s, p1 as int);
            }
            assert(s.subrange(m0 as int, m1 as int) =~= t.subrange(m0 as int, m1 as int));
            assert(s.subrange(p0 as int, p1 as int) =~= t.subrange(p0 as int, p1 as int));
        }
        let method = slice_str(text, m0, m1);
        let filepath = slice_str(text, p0, p1);
        Ok(HTTPRequest { method, filepath })
    }
}

} // verus!
