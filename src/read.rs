//! Byte sources for the deserializer: one over a slice held in memory, which
//! hands out borrowed views, and one over a stream, which copies into a
//! scratch buffer.
use std::collections::VecDeque;

use vstd::prelude::*;
use vstd::string::StringSliceAdditionalSpecFns;
use vstd::slice::slice_subrange;
use vstd::utf8::valid_utf8;

use crate::error::{Error, ErrorCode, Result};
use crate::{is_tag_byte, tag_byte, ElementType};

verus! {

/// The length that a key's one-byte prefix at `off` announces.
pub open spec fn key_len_at(data: Seq<u8>, off: int) -> int {
    data[off] as int
}

/// The length that a value's two-byte big-endian prefix at `off` announces.
pub open spec fn value_len_at(data: Seq<u8>, off: int) -> int {
    data[off] as int * 256 + data[off + 1] as int
}

/// Where UTF-8 validation of `b` fails: the longest valid prefix of `b` has
/// length `i`, and `b` is longer.
pub open spec fn utf8_fails_at(b: Seq<u8>, i: int) -> bool {
    &&& !valid_utf8(b)
    &&& 0 <= i < b.len()
    &&& valid_utf8(b.subrange(0, i))
    &&& forall|j: int| i < j <= b.len() ==> !valid_utf8(#[trigger] b.subrange(0, j))
}

/// A view of bytes, either borrowed from the input or copied into a scratch
/// buffer.
#[derive(Debug)]
pub enum Reference<'b, 'c, T: ?Sized + 'static> {
    Borrowed(&'b T),
    Copied(&'c T),
}

impl<'b, 'c, T: ?Sized + 'static> Reference<'b, 'c, T> {
    /// The referenced value, wherever it lives.
    pub open spec fn target(&self) -> &T {
        match self {
            Reference::Borrowed(b) => b,
            Reference::Copied(c) => c,
        }
    }

    /// The referenced value, wherever it lives.
    pub fn get(&self) -> (r: &T)
        ensures
            r == self.target(),
    {
        match self {
            Reference::Borrowed(b) => b,
            Reference::Copied(c) => c,
        }
    }
}

impl<'b, 'c> Reference<'b, 'c, str> {
    /// The UTF-8 bytes of the referenced text.
    pub open spec fn text_bytes(&self) -> Seq<u8> {
        self.target().spec_bytes()
    }
}

impl<'b, 'c> Reference<'b, 'c, [u8]> {
    /// The referenced bytes.
    pub open spec fn raw_bytes(&self) -> Seq<u8> {
        self.target()@
    }
}

/// The model of a byte source.
pub struct SourceModel {
    /// All bytes of the input that have come in so far.
    pub input: Seq<u8>,
    /// The offset of the next unread byte.
    pub offset: nat,
    /// Whether no byte beyond `input` will ever come.
    pub complete: bool,
    /// Whether the source can fail for reasons of its own.
    pub fallible: bool,
    /// Whether keys and values are handed out as views borrowed from the
    /// input, rather than copies in the caller's scratch buffer.
    pub zero_copy: bool,
}

/// A source of VICI bytes.
///
/// Its model is the input seen so far from the start of the stream, the
/// offset of the next unread byte, and whether the input is known to be
/// complete. Every operation keeps what was seen and may only add to it.
pub trait Read<'de>: Sized {
    /// What the source has seen and where it stands.
    spec fn model(&self) -> SourceModel;

    /// The source's internal invariant.
    spec fn wf(&self) -> bool;

    /// The offset never passes the end of what has come in.
    proof fn lemma_offset(&self)
        requires
            self.wf(),
        ensures
            self.model().offset <= self.model().input.len(),
            self.model().input.len() <= usize::MAX,
    ;

    /// Cumulative number of bytes consumed so far.
    fn position(&self) -> (r: usize)
        requires
            self.wf(),
        ensures
            r == self.model().offset,
    ;

    /// The length that the next key announces, without consuming it.
    fn peek_key(&mut self) -> (r: Result<usize>)
        requires
            old(self).wf(),
        ensures
            final(self).wf(),
            advanced(old(self).model(), final(self).model(), 0),
            match r {
                Ok(n) => old(self).model().offset < final(self).model().input.len() && n == key_len_at(
                    final(self).model().input,
                    old(self).model().offset as int,
                ),
                Err(e) => (source_failure(e, final(self).model()) || ran_out(
                    e,
                    ErrorCode::EofWhileParsingKey,
                    final(self).model(),
                )) && final(self).model().input.len() < old(self).model().offset + 1,
            },
    ;

    /// The length that the next value announces, without consuming it.
    fn peek_value(&mut self) -> (r: Result<usize>)
        requires
            old(self).wf(),
        ensures
            final(self).wf(),
            advanced(old(self).model(), final(self).model(), 0),
            match r {
                Ok(n) => old(self).model().offset + 2 <= final(self).model().input.len() && n == value_len_at(
                    final(self).model().input,
                    old(self).model().offset as int,
                ),
                Err(e) => (source_failure(e, final(self).model()) || ran_out(
                    e,
                    ErrorCode::EofWhileParsingValue,
                    final(self).model(),
                )) && final(self).model().input.len() < old(self).model().offset + 2,
            },
    ;

    /// Consumes a key and hands out its text.
    fn parse_key<'s>(&mut self, scratch: &'s mut Vec<u8>) -> (r: Result<Reference<'de, 's, str>>)
        requires
            old(self).wf(),
        ensures
            final(self).wf(),
            grows(old(self).model(), final(self).model()),
            token_read(old(self).model(), final(self).model(), r, 1),
            handed_out(final(self).model(), old(scratch)@, final(scratch)@, r),
    ;

    /// Consumes a value and hands out its text.
    fn parse_value<'s>(&mut self, scratch: &'s mut Vec<u8>) -> (r: Result<Reference<'de, 's, str>>)
        requires
            old(self).wf(),
        ensures
            final(self).wf(),
            grows(old(self).model(), final(self).model()),
            token_read(old(self).model(), final(self).model(), r, 2),
            handed_out(final(self).model(), old(scratch)@, final(scratch)@, r),
    ;

    /// Consumes a value and hands out its bytes, which need not be UTF-8.
    fn parse_value_raw<'s>(&mut self, scratch: &'s mut Vec<u8>) -> (r: Result<
        Reference<'de, 's, [u8]>,
    >)
        requires
            old(self).wf(),
        ensures
            final(self).wf(),
            grows(old(self).model(), final(self).model()),
            raw_read(old(self).model(), final(self).model(), r),
            raw_handed_out(final(self).model(), old(scratch)@, final(scratch)@, r),
    ;

    /// Consumes one element tag.
    fn parse_element_type(&mut self) -> (r: Result<ElementType>)
        requires
            old(self).wf(),
        ensures
            final(self).wf(),
            grows(old(self).model(), final(self).model()),
            tag_read(old(self).model(), final(self).model(), r),
    ;
}

/// `b` holds all that `a` held, and a complete input stays as it was.
pub open spec fn grows(a: SourceModel, b: SourceModel) -> bool {
    &&& a.input.is_prefix_of(b.input)
    &&& (a.complete ==> b.complete && b.input == a.input)
    &&& b.fallible == a.fallible
    &&& b.zero_copy == a.zero_copy
}

/// How a text token comes out: borrowed with the scratch buffer left alone
/// from a zero-copy source, else copied, with its bytes in the scratch
/// buffer.
pub open spec fn handed_out<'de, 's>(
    m: SourceModel,
    before: Seq<u8>,
    after: Seq<u8>,
    r: Result<Reference<'de, 's, str>>,
) -> bool {
    if m.zero_copy {
        after == before && (r matches Ok(v) ==> v is Borrowed)
    } else {
        r matches Ok(v) ==> v is Copied && after == v.text_bytes()
    }
}

/// `b` follows from `a` by consuming `n` bytes.
pub open spec fn advanced(a: SourceModel, b: SourceModel, n: nat) -> bool {
    &&& grows(a, b)
    &&& b.offset == a.offset + n
}

/// How raw bytes come out: as [`handed_out`] says of text.
pub open spec fn raw_handed_out<'de, 's>(
    m: SourceModel,
    before: Seq<u8>,
    after: Seq<u8>,
    r: Result<Reference<'de, 's, [u8]>>,
) -> bool {
    if m.zero_copy {
        after == before && (r matches Ok(v) ==> v is Borrowed)
    } else {
        r matches Ok(v) ==> v is Copied && after == v.raw_bytes()
    }
}

/// A failure of the source itself, which only a fallible source has. It
/// comes only when the bytes that were needed had not come in yet.
pub open spec fn source_failure(e: Error, r: SourceModel) -> bool {
    &&& r.fallible
    &&& !r.complete
    &&& (e.code matches ErrorCode::Io(_) || e.code matches ErrorCode::LengthOverflow)
}

/// `e` reports with `code` that the complete input ended at `r`'s offset.
pub open spec fn ran_out(e: Error, code: ErrorCode, r: SourceModel) -> bool {
    &&& e.code == code
    &&& e.input.is_none()
    &&& e.pos == Some(r.offset as usize)
    &&& r.complete
}

/// The outcome of reading a token with a `w`-byte length prefix from `a`.
pub open spec fn token_read<'de, 's>(
    a: SourceModel,
    b: SourceModel,
    r: Result<Reference<'de, 's, str>>,
    w: int,
) -> bool {
    let data = b.input;
    let off = a.offset as int;
    let n = if w == 1 { key_len_at(data, off) } else { value_len_at(data, off) };
    let eof = if w == 1 { ErrorCode::EofWhileParsingKey } else { ErrorCode::EofWhileParsingValue };
    match r {
        Ok(s) => {
            &&& off + w + n <= data.len()
            &&& s.text_bytes() == data.subrange(off + w, off + w + n)
            &&& valid_utf8(data.subrange(off + w, off + w + n))
            &&& b.offset == off + w + n
        },
        Err(e) => {
            ||| source_failure(e, b) && (data.len() < off + w || data.len() < off + w + n)
            ||| ran_out(e, eof, b) && b.offset == a.offset && (data.len() < off + w || data.len() < off + w
                + n)
            ||| {
                &&& off + w + n <= data.len()
                &&& e.code == ErrorCode::InvalidUnicodeCodePoint
                &&& e.pos is Some
                &&& utf8_fails_at(data.subrange(off + w, off + w + n), e.pos.unwrap() - off - w)
                &&& e.input == Some(data[e.pos.unwrap() as int])
            }
        },
    }
}

/// The outcome of reading a raw value from `a`.
pub open spec fn raw_read<'de, 's>(a: SourceModel, b: SourceModel, r: Result<Reference<'de, 's, [u8]>>) -> bool {
    let data = b.input;
    let off = a.offset as int;
    let n = value_len_at(data, off);
    match r {
        Ok(s) => {
            &&& off + 2 + n <= data.len()
            &&& s.raw_bytes() == data.subrange(off + 2, off + 2 + n)
            &&& b.offset == off + 2 + n
        },
        Err(e) => {
            ||| source_failure(e, b) && (data.len() < off + 2 || data.len() < off + 2 + n)
            ||| ran_out(e, ErrorCode::EofWhileParsingValue, b) && b.offset == a.offset && (data.len()
                < off + 2 || data.len() < off + 2 + n)
        },
    }
}

/// The outcome of reading an element tag from `a`.
pub open spec fn tag_read(a: SourceModel, b: SourceModel, r: Result<ElementType>) -> bool {
    let data = b.input;
    let off = a.offset as int;
    match r {
        Ok(t) => {
            &&& off < data.len()
            &&& tag_byte(t) == data[off]
            &&& b.offset == off + 1
        },
        Err(e) => {
            ||| source_failure(e, b) && data.len() <= off
            ||| ran_out(e, ErrorCode::EofWhileParsingElementType, b) && b.offset == a.offset
                && data.len() <= off
            ||| {
                &&& off < data.len()
                &&& b.offset == off
                &&& !is_tag_byte(data[off])
                &&& e.code == ErrorCode::InvalidElementType
                &&& e.input == Some(data[off])
                &&& e.pos == Some(off as usize)
            }
        },
    }
}

/// Relies on `std::str::from_utf8`: it accepts exactly the valid UTF-8 byte
/// strings, and on failure `valid_up_to` is the length of the longest valid
/// prefix.
#[verifier::external_body]
fn utf8_str(b: &[u8]) -> (r: core::result::Result<&str, usize>)
    ensures
        match r {
            Ok(s) => valid_utf8(b@) && s.spec_bytes() == b@,
            Err(i) => utf8_fails_at(b@, i as int),
        },
{
    std::str::from_utf8(b).map_err(|e| e.valid_up_to())
}

/// The error for invalid UTF-8 in `b`, which starts at offset `start`.
fn utf8_error(b: &[u8], start: usize, i: usize) -> (r: Error)
    requires
        utf8_fails_at(b@, i as int),
        start + b@.len() <= usize::MAX,
    ensures
        r.code == ErrorCode::InvalidUnicodeCodePoint,
        r.pos == Some((start + i) as usize),
        r.input == Some(b@[i as int]),
{
    Error::data(ErrorCode::InvalidUnicodeCodePoint, Some(b[i]), Some(start + i))
}

/// The size that a key's length byte announces.
fn key_size(b: u8) -> (r: usize)
    ensures
        r == b as int,
{
    b as usize
}

/// The size that a value's two length bytes announce, most significant
/// first.
fn value_size(h: u8, l: u8) -> (r: usize)
    ensures
        r == h as int * 256 + l as int,
{
    let h = h as usize;
    let l = l as usize;
    h * 256 + l
}

/// The text of the bytes `s`, which start at offset `start` of the input,
/// or the error for the first byte that is not valid UTF-8.
fn as_str(s: &[u8], start: usize) -> (r: Result<&str>)
    requires
        start + s@.len() <= usize::MAX,
    ensures
        r matches Ok(text) ==> valid_utf8(s@) && text.spec_bytes() == s@,
        r matches Err(e) ==> e.code == ErrorCode::InvalidUnicodeCodePoint && e.pos is Some
            && utf8_fails_at(s@, e.pos.unwrap() - start) && e.input == Some(
            s@[e.pos.unwrap() - start],
        ),
{
    match utf8_str(s) {
        Ok(text) => Ok(text),
        Err(i) => Err(utf8_error(s, start, i)),
    }
}

/// Reads a VICI stream from a byte slice held in memory. Keys and values are
/// handed out as views into the slice.
pub struct SliceRead<'a> {
    slice: &'a [u8],
    pos: usize,
}

impl<'a> SliceRead<'a> {
    /// A source that reads `slice` from its start.
    pub fn new(slice: &'a [u8]) -> (r: Self)
        ensures
            r.wf(),
            r.model() == (SourceModel {
                input: slice@,
                offset: 0,
                complete: true,
                fallible: false,
                zero_copy: true,
            }),
    {
        let len = slice.len();
        assert(len == slice@.len());
        let pos: usize = 0;
        Self { slice, pos }
    }

    /// A slice is all there is: complete, and it cannot fail.
    pub proof fn lemma_complete(&self)
        ensures
            self.model().complete,
            !self.model().fallible,
            self.model().zero_copy,
    {
    }

    fn token(&mut self, w: usize) -> (r: Result<Reference<'a, 'a, str>>)
        requires
            old(self).wf(),
            w == 1 || w == 2,
        ensures
            final(self).wf(),
            grows(old(self).model(), final(self).model()),
            token_read(old(self).model(), final(self).model(), r, w as int),
    {
        let len = self.slice.len();
        let eof = if w == 1 {
            ErrorCode::EofWhileParsingKey
        } else {
            ErrorCode::EofWhileParsingValue
        };
        if len - self.pos < w {
            return Err(Error::data(eof, None, Some(self.pos)));
        }
        let size: usize = if w == 1 {
            key_size(self.slice[self.pos])
        } else {
            value_size(self.slice[self.pos], self.slice[self.pos + 1])
        };
        if len - self.pos - w < size {
            return Err(Error::data(eof, None, Some(self.pos)));
        }
        let start = self.pos + w;
        let s = slice_subrange(self.slice, start, start + size);
        proof {
            assert(s@ == self.slice@.subrange(start as int, start + size));
        }
        let text = as_str(s, start)?;
        self.pos = start + size;
        Ok(Reference::Borrowed(text))
    }
}

/// A push-style source of bytes, in the manner of `std::io::Read`.
pub trait ByteSource {
    /// Writes up to `chunk.len()` bytes at the start of `chunk` and reports
    /// how many; zero means that the source has reached its end.
    fn read_chunk(&mut self, chunk: &mut Vec<u8>) -> (r: std::io::Result<usize>)
        ensures
            final(chunk)@.len() == old(chunk)@.len(),
            r matches Ok(n) ==> n <= old(chunk)@.len(),
    ;
}

impl<'a> ByteSource for &'a [u8] {
    fn read_chunk(&mut self, chunk: &mut Vec<u8>) -> (r: std::io::Result<usize>) {
        let n: usize = if self.len() < chunk.len() {
            self.len()
        } else {
            chunk.len()
        };
        let mut i: usize = 0;
        while i < n
            invariant
                i <= n <= self@.len(),
                n <= chunk@.len(),
                chunk@.len() == old(chunk)@.len(),
            decreases n - i,
        {
            chunk.set(i, self[i]);
            i = i + 1;
        }
        let rest: &'a [u8] = slice_subrange(*self, n, self.len());
        *self = rest;
        Ok(n)
    }
}

/// Reads a VICI stream from a [`ByteSource`], in chunks of at most 128
/// bytes. Keys and values are copied into the caller's scratch buffer.
pub struct IoRead<R> {
    reader: R,
    buf: VecDeque<u8>,
    pos: usize,
    ended: bool,
    seen: Ghost<Seq<u8>>,
}

impl<R: ByteSource> IoRead<R> {
    /// A source that reads from `reader`.
    pub fn new(reader: R) -> (r: Self)
        ensures
            r.wf(),
            r.model() == (SourceModel {
                input: Seq::empty(),
                offset: 0,
                complete: false,
                fallible: true,
                zero_copy: false,
            }),
    {
        let buf = VecDeque::with_capacity(128);
        let pos: usize = 0;
        let r = Self { reader, buf, pos, ended: false, seen: Ghost(Seq::empty()) };
        proof {
            assert(r.seen@ + r.buf@ =~= Seq::empty());
        }
        r
    }

    /// The length that a prefix of width `w` at the front of the buffer
    /// announces.
    closed spec fn announced(&self, w: int) -> int {
        if w == 1 {
            key_len_at(self.buf@, 0)
        } else {
            value_len_at(self.buf@, 0)
        }
    }

    /// Reads one chunk from the source. `Ok(false)` means that the source has
    /// ended.
    fn fill_buf(&mut self) -> (r: Result<bool>)
        requires
            old(self).wf(),
        ensures
            final(self).wf(),
            advanced(old(self).model(), final(self).model(), 0),
            final(self).seen@ == old(self).seen@,
            old(self).buf@.is_prefix_of(final(self).buf@),
            match r {
                Ok(true) => final(self).buf@.len() > old(self).buf@.len(),
                Ok(false) => final(self).ended && final(self).buf@ == old(self).buf@,
                Err(e) => {
                    &&& source_failure(e, final(self).model())
                    &&& final(self).buf@ == old(self).buf@
                    &&& (e.code matches ErrorCode::Io(_) || old(self).pos + old(self).buf@.len()
                        > usize::MAX - 128)
                },
            },
    {
        if self.ended {
            return Ok(false);
        }
        let mut chunk: Vec<u8> = vec![0u8; 128];
        match self.reader.read_chunk(&mut chunk) {
            Err(e) => Err(Error::io(e, Some(self.pos))),
            Ok(size) => {
                if size == 0 {
                    self.ended = true;
                    return Ok(false);
                }
                if size > usize::MAX - self.pos - self.buf.len() {
                    return Err(Error::data(ErrorCode::LengthOverflow, None, Some(self.pos)));
                }
                let ghost start = self.buf@;
                let mut i: usize = 0;
                while i < size
                    invariant
                        i <= size <= chunk@.len(),
                        self.buf@ == start + chunk@.subrange(0, i as int),
                        self.seen@ == old(self).seen@,
                        self.pos == old(self).pos,
                        self.ended == old(self).ended,
                        start == old(self).buf@,
                        old(self).wf(),
                        self.pos + start.len() + size <= usize::MAX,
                    decreases size - i,
                {
                    self.buf.push_back(chunk[i]);
                    i = i + 1;
                    proof {
                        assert(start + chunk@.subrange(0, i as int) =~= start + chunk@.subrange(
                            0,
                            i - 1,
                        ).push(chunk@[i - 1]));
                    }
                }
                proof {
                    assert(self.seen@ + start =~= (self.seen@ + self.buf@).subrange(
                        0,
                        (self.seen@.len() + start.len()) as int,
                    ));
                    assert(start =~= self.buf@.subrange(0, start.len() as int));
                }
                Ok(true)
            },
        }
    }

    /// Reads until the buffer holds at least `n` bytes; `Ok(false)` means
    /// that the source ended first.
    fn fill_to(&mut self, n: usize) -> (r: Result<bool>)
        requires
            old(self).wf(),
            n <= 2,
        ensures
            final(self).wf(),
            advanced(old(self).model(), final(self).model(), 0),
            final(self).seen@ == old(self).seen@,
            match r {
                Ok(true) => final(self).buf@.len() >= n,
                Ok(false) => final(self).ended && final(self).buf@.len() < n,
                Err(e) => source_failure(e, final(self).model()) && final(self).buf@.len() < n,
            },
    {
        while self.buf.len() < n
            invariant
                self.wf(),
                n <= 2,
                advanced(old(self).model(), self.model(), 0),
                self.seen@ == old(self).seen@,
            decreases (if self.buf@.len() >= n {
                0
            } else {
                n - self.buf@.len()
            }),
        {
            match self.fill_buf() {
                Ok(true) => {},
                Ok(false) => {
                    return Ok(false);
                },
                Err(e) => {
                    return Err(e);
                },
            }
        }
        Ok(true)
    }

    /// Reads until the buffer holds a whole token with a `w`-byte length
    /// prefix; `Ok(false)` means that the source ended first.
    fn fill_token(&mut self, w: usize) -> (r: Result<bool>)
        requires
            old(self).wf(),
            w == 1 || w == 2,
        ensures
            final(self).wf(),
            advanced(old(self).model(), final(self).model(), 0),
            final(self).seen@ == old(self).seen@,
            match r {
                Ok(true) => final(self).buf@.len() >= w && final(self).buf@.len() >= w
                    + final(self).announced(w as int),
                Ok(false) => final(self).ended && (final(self).buf@.len() < w
                    || final(self).buf@.len() < w + final(self).announced(w as int)),
                Err(e) => source_failure(e, final(self).model()) && (final(self).buf@.len() < w
                    || final(self).buf@.len() < w + final(self).announced(w as int)),
            },
    {
        loop
            invariant
                self.wf(),
                w == 1 || w == 2,
                advanced(old(self).model(), self.model(), 0),
                self.seen@ == old(self).seen@,
            decreases (if self.buf@.len() >= 65538 {
                0
            } else {
                65538 - self.buf@.len()
            }),
        {
            if self.buf.len() >= w {
                let size: usize = if w == 1 {
                    key_size(self.buf[0])
                } else {
                    value_size(self.buf[0], self.buf[1])
                };
                if self.buf.len() - w >= size {
                    return Ok(true);
                }
            }
            match self.fill_buf() {
                Ok(true) => {},
                Ok(false) => {
                    return Ok(false);
                },
                Err(e) => {
                    return Err(e);
                },
            }
        }
    }

    /// Moves the first `n` buffered bytes to the end of `out`.
    fn take(&mut self, n: usize, out: &mut Vec<u8>)
        requires
            old(self).wf(),
            n <= old(self).buf@.len(),
        ensures
            final(self).wf(),
            advanced(old(self).model(), final(self).model(), n as nat),
            final(self).buf@ == old(self).buf@.subrange(n as int, old(self).buf@.len() as int),
            final(self).seen@ == old(self).seen@ + old(self).buf@.subrange(0, n as int),
            final(out)@ == old(out)@ + old(self).buf@.subrange(0, n as int),
    {
        let mut i: usize = 0;
        while i < n
            invariant
                i <= n <= old(self).buf@.len(),
                old(self).wf(),
                self.buf@ == old(self).buf@.subrange(i as int, old(self).buf@.len() as int),
                self.seen@ == old(self).seen@ + old(self).buf@.subrange(0, i as int),
                out@ == old(out)@ + old(self).buf@.subrange(0, i as int),
                self.pos == old(self).pos + i,
                self.ended == old(self).ended,
            decreases n - i,
        {
            let b = self.buf.pop_front().unwrap();
            out.push(b);
            self.pos = self.pos + 1;
            proof {
                self.seen@ = self.seen@.push(b);
                assert(old(self).buf@.subrange(0, i + 1) =~= old(self).buf@.subrange(
                    0,
                    i as int,
                ).push(b));
                assert(self.buf@ =~= old(self).buf@.subrange(i + 1, old(self).buf@.len() as int));
            }
            i = i + 1;
        }
        proof {
            assert(self.seen@ + self.buf@ =~= old(self).seen@ + old(self).buf@);
        }
    }

    /// Consumes a token with a `w`-byte length prefix and leaves its bytes in
    /// `scratch`; `Ok(false)` means that the source ended first.
    fn token_into(&mut self, w: usize, scratch: &mut Vec<u8>) -> (r: Result<bool>)
        requires
            old(self).wf(),
            w == 1 || w == 2,
        ensures
            final(self).wf(),
            grows(old(self).model(), final(self).model()),
            ({
                let data = final(self).model().input;
                let off = old(self).pos as int;
                let n = if w == 1 {
                    key_len_at(data, off)
                } else {
                    value_len_at(data, off)
                };
                match r {
                    Ok(true) => {
                        &&& off + w + n <= data.len()
                        &&& final(scratch)@ == data.subrange(off + w, off + w + n)
                        &&& final(self).pos == off + w + n
                    },
                    Ok(false) => {
                        &&& final(self).model().complete
                        &&& final(self).pos == off
                        &&& (data.len() < off + w || data.len() < off + w + n)
                    },
                    Err(e) => source_failure(e, final(self).model()) && (data.len() < off + w
                        || data.len() < off + w + n),
                }
            }),
    {
        if !self.fill_token(w)? {
            return Ok(false);
        }
        let ghost before = self.buf@;
        let size: usize = if w == 1 {
            key_size(self.buf[0])
        } else {
            value_size(self.buf[0], self.buf[1])
        };
        let mut prefix: Vec<u8> = Vec::new();
        self.take(w, &mut prefix);
        scratch.clear();
        self.take(size, scratch);
        proof {
            assert(final(self).model().input =~= self.seen@ + self.buf@);
            assert(scratch@ =~= before.subrange(w as int, w + size));
        }
        Ok(true)
    }
}

impl<'de, R: ByteSource> Read<'de> for IoRead<R> {
    closed spec fn model(&self) -> SourceModel {
        SourceModel {
            input: self.seen@ + self.buf@,
            offset: self.pos as nat,
            complete: self.ended,
            fallible: true,
            zero_copy: false,
        }
    }

    closed spec fn wf(&self) -> bool {
        &&& self.seen@.len() == self.pos
        &&& self.pos + self.buf@.len() <= usize::MAX
    }

    proof fn lemma_offset(&self) {
    }

    fn position(&self) -> (r: usize) {
        self.pos
    }

    fn peek_key(&mut self) -> (r: Result<usize>) {
        if !self.fill_to(1)? {
            return Err(Error::data(ErrorCode::EofWhileParsingKey, None, Some(self.pos)));
        }
        Ok(key_size(self.buf[0]))
    }

    fn peek_value(&mut self) -> (r: Result<usize>) {
        if !self.fill_to(2)? {
            return Err(Error::data(ErrorCode::EofWhileParsingValue, None, Some(self.pos)));
        }
        Ok(value_size(self.buf[0], self.buf[1]))
    }

    fn parse_key<'s>(&mut self, scratch: &'s mut Vec<u8>) -> (r: Result<Reference<'de, 's, str>>) {
        if !self.token_into(1, scratch)? {
            return Err(Error::data(ErrorCode::EofWhileParsingKey, None, Some(self.pos)));
        }
        let start = self.pos - scratch.len();
        let sc: &'s Vec<u8> = scratch;
        let text = as_str(sc.as_slice(), start)?;
        Ok(Reference::Copied(text))
    }

    fn parse_value<'s>(&mut self, scratch: &'s mut Vec<u8>) -> (r: Result<Reference<'de, 's, str>>) {
        if !self.token_into(2, scratch)? {
            return Err(Error::data(ErrorCode::EofWhileParsingValue, None, Some(self.pos)));
        }
        let start = self.pos - scratch.len();
        let sc: &'s Vec<u8> = scratch;
        let text = as_str(sc.as_slice(), start)?;
        Ok(Reference::Copied(text))
    }

    fn parse_value_raw<'s>(&mut self, scratch: &'s mut Vec<u8>) -> (r: Result<
        Reference<'de, 's, [u8]>,
    >) {
        if !self.token_into(2, scratch)? {
            return Err(Error::data(ErrorCode::EofWhileParsingValue, None, Some(self.pos)));
        }
        let sc: &'s Vec<u8> = scratch;
        Ok(Reference::Copied(sc.as_slice()))
    }

    fn parse_element_type(&mut self) -> (r: Result<ElementType>) {
        if !self.fill_to(1)? {
            return Err(Error::data(ErrorCode::EofWhileParsingElementType, None, Some(self.pos)));
        }
        let b = self.buf[0];
        match ElementType::from_byte(b) {
            Some(t) => {
                let mut prefix: Vec<u8> = Vec::new();
                self.take(1, &mut prefix);
                Ok(t)
            },
            None => Err(Error::data(ErrorCode::InvalidElementType, Some(b), Some(self.pos))),
        }
    }
}

impl<'a> Read<'a> for SliceRead<'a> {
    closed spec fn model(&self) -> SourceModel {
        SourceModel {
            input: self.slice@,
            offset: self.pos as nat,
            complete: true,
            fallible: false,
            zero_copy: true,
        }
    }

    closed spec fn wf(&self) -> bool {
        &&& self.pos <= self.slice@.len()
        &&& self.slice@.len() <= usize::MAX
    }

    proof fn lemma_offset(&self) {
    }

    fn position(&self) -> (r: usize) {
        self.pos
    }

    fn peek_key(&mut self) -> (r: Result<usize>) {
        if self.pos < self.slice.len() {
            return Ok(key_size(self.slice[self.pos]));
        }
        Err(Error::data(ErrorCode::EofWhileParsingKey, None, Some(self.pos)))
    }

    fn peek_value(&mut self) -> (r: Result<usize>) {
        if self.slice.len() - self.pos >= 2 {
            return Ok(value_size(self.slice[self.pos], self.slice[self.pos + 1]));
        }
        Err(Error::data(ErrorCode::EofWhileParsingValue, None, Some(self.pos)))
    }

    fn parse_key<'s>(&mut self, _scratch: &'s mut Vec<u8>) -> (r: Result<Reference<'a, 's, str>>) {
        match self.token(1) {
            Ok(Reference::Borrowed(s)) => Ok(Reference::Borrowed(s)),
            Ok(Reference::Copied(s)) => Ok(Reference::Borrowed(s)),
            Err(e) => Err(e),
        }
    }

    fn parse_value<'s>(&mut self, _scratch: &'s mut Vec<u8>) -> (r: Result<Reference<'a, 's, str>>) {
        match self.token(2) {
            Ok(Reference::Borrowed(s)) => Ok(Reference::Borrowed(s)),
            Ok(Reference::Copied(s)) => Ok(Reference::Borrowed(s)),
            Err(e) => Err(e),
        }
    }

    fn parse_value_raw<'s>(&mut self, _scratch: &'s mut Vec<u8>) -> (r: Result<
        Reference<'a, 's, [u8]>,
    >) {
        let len = self.slice.len();
        if len - self.pos < 2 {
            return Err(Error::data(ErrorCode::EofWhileParsingValue, None, Some(self.pos)));
        }
        let size: usize = value_size(self.slice[self.pos], self.slice[self.pos + 1]);
        if len - self.pos - 2 < size {
            return Err(Error::data(ErrorCode::EofWhileParsingValue, None, Some(self.pos)));
        }
        let start = self.pos + 2;
        self.pos = start + size;
        Ok(Reference::Borrowed(slice_subrange(self.slice, start, start + size)))
    }

    fn parse_element_type(&mut self) -> (r: Result<ElementType>) {
        if self.pos < self.slice.len() {
            let b = self.slice[self.pos];
            match ElementType::from_byte(b) {
                Some(t) => {
                    self.pos = self.pos + 1;
                    return Ok(t);
                },
                None => {
                    return Err(Error::data(ErrorCode::InvalidElementType, Some(b), Some(self.pos)));
                },
            }
        }
        Err(Error::data(ErrorCode::EofWhileParsingElementType, None, Some(self.pos)))
    }
}

} // verus!
