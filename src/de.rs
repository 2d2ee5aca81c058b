//! Reads values in the VICI protocol.
//!
//! The [`Deserializer`] is a state machine driven by whoever builds the
//! target value: it asks for the next map key, the next value or the next
//! list element, and each step consumes exactly the tags and tokens that its
//! contract names.
use vstd::prelude::*;

use crate::error::{category_of, Category, Error, ErrorCode, Result};
use vstd::utf8::valid_utf8;

use crate::read::{
    grows, key_len_at, source_failure, utf8_fails_at, tag_read, token_read, value_len_at, ByteSource, IoRead,
    Read, Reference, SliceRead, SourceModel,
};
use crate::ser::bool_text;
use vstd::slice::slice_to_vec;
use vstd::string::StringSliceAdditionalSpecFns;

use crate::value::{ListElement, Tree, Value};
use crate::{is_tag_byte, tag_byte, ElementType};

verus! {

/// Where the deserializer stands in the message.
#[derive(Clone, Copy, Debug, PartialEq, Eq, Structural)]
pub enum State {
    /// At the top level, outside any entry.
    Root,
    /// The key of a key/value entry comes next.
    Key,
    /// A value comes next.
    Value,
    /// The name of a section comes next.
    SectionKey,
    /// The name of a list comes next.
    ListName,
    /// Inside a list of the given kind.
    ListItem(ListElement),
}

/// The nesting level after a `SectionStart` or `ListStart`.
pub open spec fn deeper(l: Option<usize>) -> Option<usize> {
    match l {
        Some(n) => Some((n + 1) as usize),
        None => Some(1usize),
    }
}

/// The nesting level after a `SectionEnd` or `ListEnd`; level zero is none.
pub open spec fn shallower(l: Option<usize>) -> Option<usize> {
    match l {
        Some(n) => if n > 1 {
            Some((n - 1) as usize)
        } else {
            None
        },
        None => None,
    }
}

/// The tag that the valid tag byte `b` stands for.
pub open spec fn tag_of(b: u8) -> ElementType {
    if b == 1 {
        ElementType::SectionStart
    } else if b == 2 {
        ElementType::SectionEnd
    } else if b == 3 {
        ElementType::KeyValue
    } else if b == 4 {
        ElementType::ListStart
    } else if b == 5 {
        ElementType::ListItem
    } else {
        ElementType::ListEnd
    }
}

/// The width of the length prefix of the token that state `s` expects: one
/// byte for names and keys, two for values, none at the top level.
pub open spec fn token_width(s: State) -> int {
    match s {
        State::Root => 0,
        State::Key | State::SectionKey | State::ListName => 1,
        _ => 2,
    }
}


/// Whether a whole key, with its length byte, lies in `data` at `off`.
pub open spec fn key_fits(data: Seq<u8>, off: int) -> bool {
    off < data.len() && off + 1 + key_len_at(data, off) <= data.len()
}

/// The bytes of the key at `off`.
pub open spec fn key_text(data: Seq<u8>, off: int) -> Seq<u8> {
    data.subrange(off + 1, off + 1 + key_len_at(data, off))
}

/// The length that a token of prefix width `w` at `off` announces.
pub open spec fn announced(data: Seq<u8>, off: int, w: int) -> int {
    if w == 1 {
        key_len_at(data, off)
    } else {
        value_len_at(data, off)
    }
}

/// Whether a whole token of prefix width `w` lies in `data` at `off`.
pub open spec fn token_fits(data: Seq<u8>, off: int, w: int) -> bool {
    off + w <= data.len() && off + w + announced(data, off, w) <= data.len()
}

/// The bytes of the token of prefix width `w` at `off`.
pub open spec fn token_text(data: Seq<u8>, off: int, w: int) -> Seq<u8> {
    data.subrange(off + w, off + w + announced(data, off, w))
}

/// The texts of the booleans are valid UTF-8.
proof fn lemma_bool_text_utf8()
    ensures
        valid_utf8(bool_text(true)),
        valid_utf8(bool_text(false)),
{
    reveal_with_fuel(valid_utf8, 4);
    assert(bool_text(true).subrange(1, 3) =~= seq![101u8, 115u8]);
    assert(seq![101u8, 115u8].subrange(1, 2) =~= seq![115u8]);
    assert(seq![115u8].subrange(1, 1) =~= Seq::<u8>::empty());
    assert(bool_text(false).subrange(1, 2) =~= seq![111u8]);
    assert(seq![111u8].subrange(1, 1) =~= Seq::<u8>::empty());
}

/// Which boolean the text `b` stands for, if any.
fn bool_of(b: &[u8]) -> (r: Option<bool>)
    ensures
        r == (if b@ == bool_text(true) {
            Some(true)
        } else if b@ == bool_text(false) {
            Some(false)
        } else {
            None::<bool>
        }),
{
    if b.len() == 3 && b[0] == 121 && b[1] == 101 && b[2] == 115 {
        assert(b@ =~= bool_text(true));
        return Some(true);
    }
    if b.len() == 2 && b[0] == 110 && b[1] == 111 {
        assert(b@ =~= bool_text(false));
        return Some(false);
    }
    assert(b@ != bool_text(true)) by {
        if b@ == bool_text(true) {
            assert(b@[0] == 121 && b@[1] == 101 && b@[2] == 115);
        }
    }
    assert(b@ != bool_text(false)) by {
        if b@ == bool_text(false) {
            assert(b@[0] == 110 && b@[1] == 111);
        }
    }
    None
}

/// How a value that describes itself should be read in state `s`.
#[derive(Clone, Copy, Debug, PartialEq, Eq, Structural)]
pub enum AnyKind {
    /// As raw bytes.
    Bytes,
    /// As text.
    Str,
    /// As a sequence of scalars.
    Sequence,
    /// As a map.
    Mapping,
}

/// A deserializer that reads VICI from a source `R`.
pub struct Deserializer<R> {
    read: R,
    level: Option<usize>,
    state: State,
    scratch: Vec<u8>,
}

impl<'de, R: Read<'de>> Deserializer<R> {
    /// The model of the source.
    pub closed spec fn source(&self) -> SourceModel {
        self.read.model()
    }

    /// The source's invariant.
    pub closed spec fn wf(&self) -> bool {
        self.read.wf()
    }

    /// The current nesting level, if any section or list is open.
    pub closed spec fn depth(&self) -> Option<usize> {
        self.level
    }

    /// Where the deserializer stands.
    pub closed spec fn at(&self) -> State {
        self.state
    }

    /// A deserializer at the top level of `read`.
    pub fn new(read: R) -> (r: Self)
        ensures
            r.source() == read.model(),
            r.wf() == read.wf(),
            r.depth().is_none(),
            r.at() == State::Root,
    {
        let level = None;
        let state = State::Root;
        let scratch = Vec::new();
        Self { read, level, state, scratch }
    }

    /// Where the deserializer stands.
    pub fn state(&self) -> (r: State)
        ensures
            r == self.at(),
    {
        self.state
    }

    /// The current nesting level, if any section or list is open.
    pub fn level(&self) -> (r: Option<usize>)
        ensures
            r == self.depth(),
    {
        self.level
    }

    /// The number of bytes consumed so far.
    pub fn position(&self) -> (r: usize)
        requires
            self.wf(),
        ensures
            r == self.source().offset,
    {
        self.read.position()
    }

    /// Consumes one element tag.
    pub fn parse_element_type(&mut self) -> (r: Result<ElementType>)
        requires
            old(self).wf(),
        ensures
            final(self).wf(),
            grows(old(self).source(), final(self).source()),
            tag_read(old(self).source(), final(self).source(), r),
            final(self).at() == old(self).at(),
            final(self).depth() == old(self).depth(),
    {
        self.read.parse_element_type()
    }

    /// Consumes the token that the state expects (a key or name with a
    /// one-byte length, or a value with a two-byte length) and hands out its
    /// text. At the top level there is no token to read.
    pub fn parse_str(&mut self) -> (r: Result<Reference<'de, '_, str>>)
        requires
            old(self).wf(),
        ensures
            final(self).wf(),
            grows(old(self).source(), final(self).source()),
            final(self).at() == old(self).at(),
            final(self).depth() == old(self).depth(),
            token_width(old(self).at()) == 0 ==> r is Err && final(self).source() == old(
                self,
            ).source(),
            token_width(old(self).at()) != 0 ==> token_read(
                old(self).source(),
                final(self).source(),
                r,
                token_width(old(self).at()),
            ),
            r matches Ok(v) ==> (if final(self).source().zero_copy {
                v is Borrowed
            } else {
                v is Copied
            }),
    {
        match self.state {
            State::Key | State::SectionKey | State::ListName => {
                self.read.parse_key(&mut self.scratch)
            },
            State::Value | State::ListItem(_) => {
                self.read.parse_value(&mut self.scratch)
            },
            State::Root => Err(
                Error::data(ErrorCode::UnexpectedState, None, Some(self.read.position())),
            ),
        }
    }

    /// Consumes a value and hands out its bytes without checking that they
    /// are text. Only a value may be read this way.
    pub fn parse_raw_value(&mut self) -> (r: Result<Reference<'de, '_, [u8]>>)
        requires
            old(self).wf(),
        ensures
            final(self).wf(),
            grows(old(self).source(), final(self).source()),
            final(self).at() == old(self).at(),
            final(self).depth() == old(self).depth(),
            old(self).at() != State::Value ==> r is Err && final(self).source() == old(
                self,
            ).source(),
            old(self).at() == State::Value ==> crate::read::raw_read(
                old(self).source(),
                final(self).source(),
                r,
            ),
            r matches Ok(v) ==> (if final(self).source().zero_copy {
                v is Borrowed
            } else {
                v is Copied
            }),
    {
        match self.state {
            State::Value => self.read.parse_value_raw(&mut self.scratch),
            _ => Err(Error::data(ErrorCode::UnexpectedState, None, Some(self.read.position()))),
        }
    }

    /// The length that the next token announces, without consuming it.
    pub fn peek(&mut self) -> (r: Result<usize>)
        requires
            old(self).wf(),
        ensures
            final(self).wf(),
            grows(old(self).source(), final(self).source()),
            final(self).source().offset == old(self).source().offset,
            final(self).at() == old(self).at(),
            final(self).depth() == old(self).depth(),
            r matches Ok(n) ==> ({
                let data = final(self).source().input;
                let off = old(self).source().offset as int;
                if token_width(old(self).at()) == 1 {
                    off < data.len() && n == key_len_at(data, off)
                } else {
                    token_width(old(self).at()) == 2 && off + 2 <= data.len() && n
                        == value_len_at(data, off)
                }
            }),
            r is Err ==> token_width(old(self).at()) == 0 || final(self).source().fallible || (
            final(self).source().complete && final(self).source().input.len() < old(
                self,
            ).source().offset + token_width(old(self).at())),
    {
        match self.state {
            State::Key | State::SectionKey | State::ListName => self.read.peek_key(),
            State::Value | State::ListItem(_) => self.read.peek_value(),
            State::Root => Err(
                Error::data(ErrorCode::UnexpectedState, None, Some(self.read.position())),
            ),
        }
    }

    /// Asks for the next map key. Reads one tag: `SectionStart` and
    /// `ListStart` open a level, `KeyValue` announces a scalar entry, and
    /// `SectionEnd` closes the open level and ends the map. At the top level,
    /// the end of the input ends the map. `Ok(true)` means that a key follows.
    pub fn next_key(&mut self) -> (r: Result<bool>)
        requires
            old(self).wf(),
        ensures
            final(self).wf(),
            grows(old(self).source(), final(self).source()),
            ({
                let data = final(self).source().input;
                let off = old(self).source().offset as int;
                let lv = old(self).depth();
                if off < data.len() && is_tag_byte(data[off]) {
                    let t = tag_of(data[off]);
                    if t == ElementType::SectionStart || t == ElementType::ListStart {
                        if lv == Some(usize::MAX) {
                            r matches Err(e) && e.code == ErrorCode::LengthOverflow
                        } else {
                            &&& r matches Ok(true)
                            &&& final(self).depth() == deeper(lv)
                            &&& final(self).at() == (if t == ElementType::SectionStart {
                                State::SectionKey
                            } else {
                                State::ListName
                            })
                            &&& final(self).source().offset == off + 1
                        }
                    } else if t == ElementType::KeyValue {
                        &&& r matches Ok(true)
                        &&& final(self).depth() == lv
                        &&& final(self).at() == State::Key
                        &&& final(self).source().offset == off + 1
                    } else if t == ElementType::SectionEnd && lv is Some {
                        &&& r matches Ok(false)
                        &&& final(self).depth() == shallower(lv)
                        &&& final(self).at() == State::Root
                        &&& final(self).source().offset == off + 1
                    } else {
                        r matches Err(e) && e.code == ErrorCode::UnexpectedElementType && e.pos
                            == Some((off + 1) as usize) && e.input == Some(data[off])
                    }
                } else if off < data.len() {
                    r matches Err(e) && e.code == ErrorCode::InvalidElementType && e.pos == Some(
                        off as usize,
                    ) && e.input == Some(data[off])
                } else {
                    ||| r matches Err(e) && source_failure(e, final(self).source())
                    ||| {
                        &&& final(self).source().complete
                        &&& if lv is None {
                            &&& r matches Ok(false)
                            &&& final(self).depth() == lv
                            &&& final(self).at() == old(self).at()
                        } else {
                            r matches Err(e) && e.code == ErrorCode::EofWhileParsingElementType
                                && e.pos == Some(off as usize) && e.input.is_none()
                        }
                    }
                }
            }),
    {
        let tag = self.read.parse_element_type();
        match tag {
            Ok(t) => {
                if t == ElementType::SectionStart || t == ElementType::ListStart {
                    self.open_level()?;
                    self.state = if t == ElementType::SectionStart {
                        State::SectionKey
                    } else {
                        State::ListName
                    };
                    Ok(true)
                } else if t == ElementType::KeyValue {
                    self.state = State::Key;
                    Ok(true)
                } else if t == ElementType::SectionEnd && self.level.is_some() {
                    self.close_level();
                    self.state = State::Root;
                    Ok(false)
                } else {
                    Err(
                        Error::data(
                            ErrorCode::UnexpectedElementType,
                            Some(t.as_byte()),
                            Some(self.read.position()),
                        ),
                    )
                }
            },
            Err(e) => {
                if e.is_eof() && self.level.is_none() {
                    Ok(false)
                } else {
                    Err(e)
                }
            },
        }
    }

    /// One more level of nesting.
    fn open_level(&mut self) -> (r: Result<()>)
        ensures
            final(self).read == old(self).read,
            final(self).state == old(self).state,
            old(self).level == Some(usize::MAX) ==> (r matches Err(e) && e.code
                == ErrorCode::LengthOverflow && final(self).level == old(self).level),
            old(self).level != Some(usize::MAX) ==> r is Ok && final(self).level == deeper(
                old(self).level,
            ),
    {
        match self.level {
            Some(l) => {
                if l == usize::MAX {
                    return Err(Error::data(ErrorCode::LengthOverflow, None, None));
                }
                self.level = Some(l + 1);
            },
            None => {
                self.level = Some(1);
            },
        }
        Ok(())
    }

    /// One level of nesting less.
    fn close_level(&mut self)
        ensures
            final(self).read == old(self).read,
            final(self).state == old(self).state,
            final(self).level == shallower(old(self).level),
    {
        self.level = match self.level {
            Some(l) => if l > 1 {
                Some(l - 1)
            } else {
                None
            },
            None => None,
        };
    }

    /// Moves from a key to its value. After a list name the value is the
    /// list itself; after a key it is a scalar; after a section name it is
    /// the section's body, read as a nested map.
    pub fn next_value(&mut self)
        ensures
            final(self).source() == old(self).source(),
            final(self).wf() == old(self).wf(),
            final(self).depth() == old(self).depth(),
            final(self).at() == match old(self).at() {
                State::ListName => State::ListItem(ListElement::String),
                State::Key => State::Value,
                _ => State::Root,
            },
    {
        self.state = match self.state {
            State::ListName => State::ListItem(ListElement::String),
            State::Key => State::Value,
            _ => State::Root,
        };
    }

    /// Asks for the next list element. In a scalar list, `ListItem` starts an
    /// element and `ListEnd` ends the list. `SectionStart` starts an element
    /// that is a section, whose name (its index) is read and dropped; in a
    /// list of sections, `SectionEnd` ends the list. `Ok(Some(kind))` means
    /// that an element follows; after it, call [`Deserializer::end_element`]
    /// with that kind.
    pub fn next_element(&mut self) -> (r: Result<Option<ListElement>>)
        requires
            old(self).wf(),
        ensures
            final(self).wf(),
            grows(old(self).source(), final(self).source()),
            ({
                let data = final(self).source().input;
                let off = old(self).source().offset as int;
                let lv = old(self).depth();
                let st = old(self).at();
                if off < data.len() && is_tag_byte(data[off]) {
                    let t = tag_of(data[off]);
                    if t == ElementType::ListItem && st == State::ListItem(ListElement::String) {
                        &&& r matches Ok(Some(k)) && k == ListElement::String
                        &&& final(self).depth() == lv
                        &&& final(self).at() == State::Value
                        &&& final(self).source().offset == off + 1
                    } else if (t == ElementType::ListEnd && st == State::ListItem(
                        ListElement::String,
                    )) || (t == ElementType::SectionEnd && st == State::ListItem(
                        ListElement::Section,
                    )) {
                        &&& r matches Ok(None)
                        &&& final(self).depth() == shallower(lv)
                        &&& final(self).at() == State::Root
                        &&& final(self).source().offset == off + 1
                    } else if t == ElementType::SectionStart {
                        if lv == Some(usize::MAX) {
                            r matches Err(e) && e.code == ErrorCode::LengthOverflow
                        } else if key_fits(data, off + 1) && valid_utf8(key_text(data, off + 1)) {
                            &&& r matches Ok(Some(k)) && k == ListElement::Section
                            &&& final(self).depth() == deeper(lv)
                            &&& final(self).at() == State::ListItem(ListElement::Section)
                            &&& final(self).source().offset == off + 2 + key_len_at(data, off + 1)
                        } else if key_fits(data, off + 1) {
                            r matches Err(e) && e.code == ErrorCode::InvalidUnicodeCodePoint
                                && e.pos is Some && utf8_fails_at(
                                key_text(data, off + 1),
                                e.pos.unwrap() - (off + 2),
                            ) && e.input == Some(data[e.pos.unwrap() as int])
                        } else {
                            ||| r matches Err(e) && source_failure(e, final(self).source())
                            ||| final(self).source().complete && (r matches Err(e) && e.code
                                == ErrorCode::EofWhileParsingKey && e.pos == Some(
                                (off + 1) as usize,
                            ) && e.input.is_none())
                        }
                    } else {
                        r matches Err(e) && e.code == ErrorCode::UnexpectedElementType && e.pos
                            == Some((off + 1) as usize) && e.input == Some(data[off])
                    }
                } else if off < data.len() {
                    r matches Err(e) && e.code == ErrorCode::InvalidElementType && e.pos == Some(
                        off as usize,
                    ) && e.input == Some(data[off])
                } else {
                    ||| r matches Err(e) && source_failure(e, final(self).source())
                    ||| final(self).source().complete && (r matches Err(e) && e.code
                        == ErrorCode::EofWhileParsingElementType && e.pos == Some(off as usize)
                        && e.input.is_none())
                }
            }),
    {
        let t = self.read.parse_element_type()?;
        if t == ElementType::ListItem && self.state == State::ListItem(ListElement::String) {
            self.state = State::Value;
            Ok(Some(ListElement::String))
        } else if (t == ElementType::ListEnd && self.state == State::ListItem(ListElement::String))
            || (t == ElementType::SectionEnd && self.state == State::ListItem(
            ListElement::Section,
        )) {
            self.close_level();
            self.state = State::Root;
            Ok(None)
        } else if t == ElementType::SectionStart {
            self.open_level()?;
            let ghost mid = self.read.model();
            self.state = State::SectionKey;
            let named = self.read.parse_key(&mut self.scratch);
            match named {
                Ok(_) => {},
                Err(e) => {
                    proof {
                        if !source_failure(e, self.read.model()) && e.code
                            == ErrorCode::InvalidUnicodeCodePoint {
                            let data = self.read.model().input;
                            let o = mid.offset as int;
                            let k = data.subrange(o + 1, o + 1 + key_len_at(data, o));
                            assert(k =~= key_text(data, o));
                        }
                    }
                    return Err(e);
                },
            }
            self.state = State::ListItem(ListElement::Section);
            Ok(Some(ListElement::Section))
        } else {
            Err(
                Error::data(
                    ErrorCode::UnexpectedElementType,
                    Some(t.as_byte()),
                    Some(self.read.position()),
                ),
            )
        }
    }

    /// After an element of a list of the given kind: back in the list.
    pub fn end_element(&mut self, kind: ListElement)
        ensures
            final(self).source() == old(self).source(),
            final(self).wf() == old(self).wf(),
            final(self).depth() == old(self).depth(),
            final(self).at() == State::ListItem(kind),
    {
        self.state = State::ListItem(kind);
    }

    /// Whether an optional value is present. At the top level it always is.
    /// Elsewhere a token of length zero is the absent value: it is consumed
    /// and `Ok(false)` comes back; any other length is left unread.
    pub fn next_is_some(&mut self) -> (r: Result<bool>)
        requires
            old(self).wf(),
        ensures
            final(self).wf(),
            grows(old(self).source(), final(self).source()),
            final(self).at() == old(self).at(),
            final(self).depth() == old(self).depth(),
            old(self).at() == State::Root ==> (r matches Ok(true) && final(self).source()
                == old(self).source()),
            old(self).at() != State::Root ==> ({
                let data = final(self).source().input;
                let off = old(self).source().offset as int;
                let w = token_width(old(self).at());
                &&& (r matches Ok(true) ==> off + w <= data.len() && announced(data, off, w) != 0
                    && final(self).source().offset == off)
                &&& (r matches Ok(false) ==> off + w <= data.len() && announced(data, off, w) == 0
                    && final(self).source().offset == off + w)
                &&& (!final(self).source().fallible && off + w <= data.len()) ==> r is Ok
            }),
    {
        if self.state == State::Root {
            return Ok(true);
        }
        let n = self.peek()?;
        if n == 0 {
            let ghost mid = self.read.model();
            match self.parse_str() {
                Ok(_) => {},
                Err(e) => {
                    proof {
                        let w = token_width(self.state);
                        let data = self.read.model().input;
                        let o = mid.offset as int;
                        assert(data.subrange(o + w, o + w) =~= Seq::<u8>::empty());
                        assert(valid_utf8(Seq::<u8>::empty())) by {
                            reveal_with_fuel(valid_utf8, 2);
                        }
                    }
                    return Err(e);
                },
            }
            Ok(false)
        } else {
            Ok(true)
        }
    }

    /// Reads a boolean: the text `yes` or `no`, and nothing else.
    pub fn parse_bool(&mut self) -> (r: Result<bool>)
        requires
            old(self).wf(),
        ensures
            final(self).wf(),
            grows(old(self).source(), final(self).source()),
            final(self).at() == old(self).at(),
            final(self).depth() == old(self).depth(),
            ({
                let data = final(self).source().input;
                let off = old(self).source().offset as int;
                let w = token_width(old(self).at());
                let fallible = final(self).source().fallible;
                &&& (r matches Ok(b) ==> w != 0 && token_fits(data, off, w) && token_text(data, off, w)
                    == bool_text(b))
                &&& (w != 0 && token_fits(data, off, w) && valid_utf8(token_text(data, off, w))
                    && token_text(data, off, w) != bool_text(true) && token_text(data, off, w)
                    != bool_text(false) && !final(self).source().fallible) ==> (r matches Err(e)
                    && e.code == ErrorCode::InvalidBool)
                &&& (w != 0 && token_fits(data, off, w) && (token_text(data, off, w) == bool_text(
                    true,
                ) || token_text(data, off, w) == bool_text(false)) && !fallible) ==> r == Ok::<
                    bool,
                    Error,
                >(
                    token_text(data, off, w) == bool_text(true),
                )
            }),
    {
        let ghost w = token_width(self.state);
        let ghost start = self.read.model();
        proof {
            lemma_bool_text_utf8();
        }
        let ghost mut seen: Seq<u8> = Seq::empty();
        let found = {
            let text = self.parse_str()?;
            proof {
                seen = text.text_bytes();
            }
            bool_of(text.get().as_bytes())
        };
        proof {
            let data = self.read.model().input;
            let o = start.offset as int;
            assert(seen == data.subrange(o + w, o + w + announced(data, o, w)));
        }
        match found {
            Some(v) => Ok(v),
            None => Err(Error::data(ErrorCode::InvalidBool, None, Some(self.read.position()))),
        }
    }

    /// How a value that describes itself is read in the current state:
    /// values as bytes, keys and names as text, scalar lists as sequences,
    /// and sections and the top level as maps.
    pub fn any_kind(&self) -> (r: AnyKind)
        ensures
            r == match self.at() {
                State::Value => AnyKind::Bytes,
                State::Key | State::SectionKey | State::ListName => AnyKind::Str,
                State::ListItem(ListElement::String) => AnyKind::Sequence,
                _ => AnyKind::Mapping,
            },
    {
        match self.state {
            State::Value => AnyKind::Bytes,
            State::Key | State::SectionKey | State::ListName => AnyKind::Str,
            State::ListItem(ListElement::String) => AnyKind::Sequence,
            _ => AnyKind::Mapping,
        }
    }
}

impl<R: ByteSource> Deserializer<IoRead<R>> {
    /// A deserializer that reads from a byte stream.
    pub fn from_reader(reader: R) -> (r: Self)
        ensures
            r.wf(),
            r.source() == (SourceModel {
                input: Seq::empty(),
                offset: 0,
                complete: false,
                fallible: true,
                zero_copy: false,
            }),
            r.depth().is_none(),
            r.at() == State::Root,
    {
        Deserializer::new(IoRead::new(reader))
    }
}

impl<'a> Deserializer<SliceRead<'a>> {
    /// A deserializer that reads from a byte slice.
    pub fn from_slice(slice: &'a [u8]) -> (r: Self)
        ensures
            r.wf(),
            r.source() == (SourceModel {
                input: slice@,
                offset: 0,
                complete: true,
                fallible: false,
                zero_copy: true,
            }),
            r.depth().is_none(),
            r.at() == State::Root,
    {
        Deserializer::new(SliceRead::new(slice))
    }
}

/// The outcome of parsing a part of a message: the parsed value and the
/// offset after it; or that the input ended too early, with the offset at
/// which the part that ran out starts; or that it is not valid VICI, with
/// the offset at which that is detected and the offending byte.
pub enum Parsed<T> {
    Done(T, int),
    Short(int),
    Malformed(int, Option<u8>),
}

/// Where UTF-8 validation of `b` fails, if it does.
pub open spec fn first_invalid(b: Seq<u8>) -> int {
    choose|i: int| utf8_fails_at(b, i)
}

/// Validation fails at one place only.
pub proof fn lemma_first_invalid(b: Seq<u8>, i: int)
    requires
        utf8_fails_at(b, i),
    ensures
        first_invalid(b) == i,
{
    let j = first_invalid(b);
    assert(utf8_fails_at(b, j));
    if j < i {
        assert(!valid_utf8(b.subrange(0, i)));
    } else if i < j {
        assert(!valid_utf8(b.subrange(0, j)));
    }
}

/// A token of width `w` at `off` whose text is not valid UTF-8.
pub open spec fn bad_text<T>(data: Seq<u8>, off: int, w: int) -> Parsed<T> {
    let text = token_text(data, off, w);
    let i = first_invalid(text);
    Parsed::Malformed(off + w + i, Some(text[i]))
}

/// A tag byte at `off` that does not belong there: a valid tag is reported
/// after it was read, any other byte where it stands.
pub open spec fn bad_tag<T>(data: Seq<u8>, off: int) -> Parsed<T> {
    if is_tag_byte(data[off]) {
        Parsed::Malformed(off + 1, Some(data[off]))
    } else {
        Parsed::Malformed(off, Some(data[off]))
    }
}

/// `p` with `acc` put before its result.
pub open spec fn prepend<T>(acc: Seq<T>, p: Parsed<Seq<T>>) -> Parsed<Seq<T>> {
    match p {
        Parsed::Done(r, o) => Parsed::Done(acc + r, o),
        Parsed::Short(q) => Parsed::Short(q),
        Parsed::Malformed(q, x) => Parsed::Malformed(q, x),
    }
}

/// The key at `off`: text with a one-byte length.
pub open spec fn key_at(data: Seq<u8>, off: int) -> Parsed<Seq<u8>> {
    if !token_fits(data, off, 1) {
        Parsed::Short(off)
    } else if valid_utf8(token_text(data, off, 1)) {
        Parsed::Done(token_text(data, off, 1), off + 1 + announced(data, off, 1))
    } else {
        bad_text(data, off, 1)
    }
}

/// The value at `off`: text with a two-byte length.
pub open spec fn value_at(data: Seq<u8>, off: int) -> Parsed<Seq<u8>> {
    if !token_fits(data, off, 2) {
        Parsed::Short(off)
    } else if valid_utf8(token_text(data, off, 2)) {
        Parsed::Done(token_text(data, off, 2), off + 2 + announced(data, off, 2))
    } else {
        bad_text(data, off, 2)
    }
}

/// The items of a scalar list from `off` to its `ListEnd`.
pub open spec fn items_at(data: Seq<u8>, off: int) -> Parsed<Seq<Tree>>
    decreases data.len() - off,
{
    if off < 0 || off > data.len() {
        Parsed::Malformed(off, None)
    } else if off == data.len() {
        Parsed::Short(off)
    } else if data[off] == 6 {
        Parsed::Done(Seq::empty(), off + 1)
    } else if data[off] == 5 {
        match value_at(data, off + 1) {
            Parsed::Done(v, o1) => if off < o1 <= data.len() {
                prepend(seq![Tree::Text(v)], items_at(data, o1))
            } else {
                Parsed::Malformed(off, None)
            },
            Parsed::Short(q) => Parsed::Short(q),
            Parsed::Malformed(q, x) => Parsed::Malformed(q, x),
        }
    } else {
        bad_tag(data, off)
    }
}

/// The value after the key of an entry opened by the tag byte `b`: a value
/// for `KeyValue`, a section body for `SectionStart`, list items for
/// `ListStart`.
pub open spec fn head_at(data: Seq<u8>, o1: int, b: u8) -> Parsed<Tree>
    decreases data.len() - o1, 3int,
{
    if o1 < 0 || o1 > data.len() {
        Parsed::Malformed(o1, None)
    } else if b == 3 {
        match value_at(data, o1) {
            Parsed::Done(v, o2) => Parsed::Done(Tree::Text(v), o2),
            Parsed::Short(q) => Parsed::Short(q),
            Parsed::Malformed(q, x) => Parsed::Malformed(q, x),
        }
    } else if b == 1 {
        match entries_at(data, o1, true) {
            Parsed::Done(es, o2) => Parsed::Done(Tree::Section(es), o2),
            Parsed::Short(q) => Parsed::Short(q),
            Parsed::Malformed(q, x) => Parsed::Malformed(q, x),
        }
    } else {
        match items_at(data, o1) {
            Parsed::Done(items, o2) => Parsed::Done(Tree::List(items), o2),
            Parsed::Short(q) => Parsed::Short(q),
            Parsed::Malformed(q, x) => Parsed::Malformed(q, x),
        }
    }
}

/// The entry whose tag byte is at `off`: its key and its value.
pub open spec fn entry_at(data: Seq<u8>, off: int) -> Parsed<(Seq<u8>, Tree)>
    decreases data.len() - off, 1int,
{
    if off < 0 || off >= data.len() {
        Parsed::Malformed(off, None)
    } else {
        match key_at(data, off + 1) {
            Parsed::Done(k, o1) => if off < o1 <= data.len() {
                match head_at(data, o1, data[off]) {
                    Parsed::Done(v, o2) => Parsed::Done((k, v), o2),
                    Parsed::Short(q) => Parsed::Short(q),
                    Parsed::Malformed(q, x) => Parsed::Malformed(q, x),
                }
            } else {
                Parsed::Malformed(off, None)
            },
            Parsed::Short(q) => Parsed::Short(q),
            Parsed::Malformed(q, x) => Parsed::Malformed(q, x),
        }
    }
}

/// The entries of a map from `off`: up to its `SectionEnd` if the map is
/// `nested`, else up to the end of the input.
pub open spec fn entries_at(data: Seq<u8>, off: int, nested: bool) -> Parsed<
    Seq<(Seq<u8>, Tree)>,
>
    decreases data.len() - off, 2int,
{
    if off < 0 || off > data.len() {
        Parsed::Malformed(off, None)
    } else if off == data.len() {
        if nested {
            Parsed::Short(off)
        } else {
            Parsed::Done(Seq::empty(), off)
        }
    } else if data[off] == 2 {
        if nested {
            Parsed::Done(Seq::empty(), off + 1)
        } else {
            Parsed::Malformed(off + 1, Some(2u8))
        }
    } else if data[off] == 1 || data[off] == 3 || data[off] == 4 {
        match entry_at(data, off) {
            Parsed::Done(e, o2) => if off < o2 <= data.len() {
                prepend(seq![e], entries_at(data, o2, nested))
            } else {
                Parsed::Malformed(off, None)
            },
            Parsed::Short(q) => Parsed::Short(q),
            Parsed::Malformed(q, x) => Parsed::Malformed(q, x),
        }
    } else {
        bad_tag(data, off)
    }
}

/// The parse of a whole message: the entries of its top-level map.
pub open spec fn parse_message(data: Seq<u8>) -> Parsed<Seq<(Seq<u8>, Tree)>> {
    entries_at(data, 0, false)
}

/// The models of a vector of entries.
pub open spec fn entries_view(es: Seq<(Vec<u8>, Value)>) -> Seq<(Seq<u8>, Tree)> {
    Seq::new(es.len(), |i: int| (es[i].0@, es[i].1.view()))
}

/// The models of a vector of values.
pub open spec fn values_view(vs: Seq<Value>) -> Seq<Tree> {
    Seq::new(vs.len(), |i: int| vs[i].view())
}

/// Whether `r` reports the outcome `p` of the parse, with `v` the model of a
/// result: the same value, or an error of the same class at the same offset
/// with the same offending byte.
pub open spec fn reports<T, U>(r: Result<T>, p: Parsed<U>, v: spec_fn(T) -> U) -> bool {
    match p {
        Parsed::Done(x, _) => r matches Ok(y) && v(y) == x,
        Parsed::Short(p) => r matches Err(e) && category_of(e.code) == Category::Eof && e.pos
            == Some(p as usize) && e.input.is_none(),
        Parsed::Malformed(p, b) => r matches Err(e) && category_of(e.code) == Category::Data
            && e.pos == Some(p as usize) && e.input == b,
    }
}

/// Prepending in two steps is prepending the concatenation.
pub proof fn lemma_prepend_assoc<T>(a: Seq<T>, b: Seq<T>, p: Parsed<Seq<T>>)
    ensures
        prepend(a, prepend(b, p)) == prepend(a + b, p),
{
    match p {
        Parsed::Done(r, o) => {
            assert((a + b) + r =~= a + (b + r));
        },
        _ => {},
    }
}

/// Copies the bytes of a text.
fn text_to_vec(s: &str) -> (r: Vec<u8>)
    ensures
        r@ == s.spec_bytes(),
{
    slice_to_vec(s.as_bytes())
}

/// `d` agrees with `d1` on all of `d`.
pub open spec fn agrees(d: Seq<u8>, d1: Seq<u8>) -> bool {
    &&& d.len() <= d1.len()
    &&& forall|i: int| 0 <= i < d.len() ==> d1[i] == d[i]
}

proof fn lemma_agrees(d: Seq<u8>, d1: Seq<u8>)
    requires
        d.is_prefix_of(d1),
    ensures
        agrees(d, d1),
{
    assert forall|i: int| 0 <= i < d.len() implies d1[i] == d[i] by {
        assert(d1.subrange(0, d.len() as int)[i] == d1[i]);
    }
}

proof fn lemma_prefix_trans(a: Seq<u8>, b: Seq<u8>, c: Seq<u8>)
    requires
        a.is_prefix_of(b),
        b.is_prefix_of(c),
    ensures
        a.is_prefix_of(c),
{
    lemma_agrees(a, b);
    lemma_agrees(b, c);
    assert(a =~= c.subrange(0, a.len() as int));
}

proof fn lemma_key_stable(d: Seq<u8>, d1: Seq<u8>, off: int)
    requires
        agrees(d, d1),
        0 <= off,
        token_fits(d, off, 1),
    ensures
        key_at(d1, off) == key_at(d, off),
{
    assert(d1[off] == d[off]);
    assert(token_text(d1, off, 1) =~= token_text(d, off, 1));
}

proof fn lemma_value_stable(d: Seq<u8>, d1: Seq<u8>, off: int)
    requires
        agrees(d, d1),
        0 <= off,
        token_fits(d, off, 2),
    ensures
        value_at(d1, off) == value_at(d, off),
{
    assert(d1[off] == d[off]);
    assert(d1[off + 1] == d[off + 1]);
    assert(token_text(d1, off, 2) =~= token_text(d, off, 2));
}

/// Scalar list items that did not run out parse the same on more input.
proof fn lemma_items_stable(d: Seq<u8>, d1: Seq<u8>, off: int)
    requires
        agrees(d, d1),
        0 <= off <= d.len(),
        !(items_at(d, off) is Short),
    ensures
        items_at(d1, off) == items_at(d, off),
    decreases d.len() - off,
{
    if off < d.len() {
        assert(d1[off] == d[off]);
        if d[off] == 5 && token_fits(d, off + 1, 2) {
            lemma_value_stable(d, d1, off + 1);
            if let Parsed::Done(v, o1) = value_at(d, off + 1) {
                if off < o1 <= d.len() {
                    lemma_items_stable(d, d1, o1);
                }
            }
        }
    }
}

/// The value of an entry that did not run out parses the same on more
/// input.
proof fn lemma_head_stable(d: Seq<u8>, d1: Seq<u8>, o1: int, b: u8)
    requires
        agrees(d, d1),
        0 <= o1 <= d.len(),
        !(head_at(d, o1, b) is Short),
    ensures
        head_at(d1, o1, b) == head_at(d, o1, b),
    decreases d.len() - o1, 3int,
{
    if b == 3 {
        if token_fits(d, o1, 2) {
            lemma_value_stable(d, d1, o1);
        }
    } else if b == 1 {
        lemma_entries_stable(d, d1, o1, true);
    } else {
        lemma_items_stable(d, d1, o1);
    }
}

/// An entry that did not run out parses the same on more input.
proof fn lemma_entry_stable(d: Seq<u8>, d1: Seq<u8>, off: int)
    requires
        agrees(d, d1),
        0 <= off < d.len(),
        !(entry_at(d, off) is Short),
    ensures
        entry_at(d1, off) == entry_at(d, off),
    decreases d.len() - off, 1int,
{
    assert(d1[off] == d[off]);
    if token_fits(d, off + 1, 1) {
        lemma_key_stable(d, d1, off + 1);
        if let Parsed::Done(k, o1) = key_at(d, off + 1) {
            if off < o1 <= d.len() {
                lemma_head_stable(d, d1, o1, d[off]);
            }
        }
    }
}

/// A list that parses ends within the input.
proof fn lemma_items_bound(d: Seq<u8>, off: int)
    ensures
        items_at(d, off) matches Parsed::Done(_, o) ==> o <= d.len(),
    decreases d.len() - off,
{
    if 0 <= off < d.len() && d[off] == 5 {
        if let Parsed::Done(v, o1) = value_at(d, off + 1) {
            if off < o1 <= d.len() {
                lemma_items_bound(d, o1);
            }
        }
    }
}

/// The value of an entry that parses ends within the input.
proof fn lemma_head_bound(d: Seq<u8>, o1: int, b: u8)
    ensures
        head_at(d, o1, b) matches Parsed::Done(_, o) ==> o <= d.len(),
    decreases d.len() - o1, 3int,
{
    if 0 <= o1 <= d.len() {
        if b == 1 {
            lemma_entries_bound(d, o1, true);
        } else if b != 3 {
            lemma_items_bound(d, o1);
        }
    }
}

/// An entry that parses ends within the input.
proof fn lemma_entry_bound(d: Seq<u8>, off: int)
    ensures
        entry_at(d, off) matches Parsed::Done(_, o) ==> o <= d.len(),
    decreases d.len() - off, 1int,
{
    if 0 <= off < d.len() {
        if let Parsed::Done(k, o1) = key_at(d, off + 1) {
            if off < o1 <= d.len() {
                lemma_head_bound(d, o1, d[off]);
            }
        }
    }
}

/// Entries that parse end within the input.
proof fn lemma_entries_bound(d: Seq<u8>, off: int, nested: bool)
    ensures
        entries_at(d, off, nested) matches Parsed::Done(_, o) ==> o <= d.len(),
    decreases d.len() - off, 2int,
{
    if 0 <= off < d.len() && (d[off] == 1 || d[off] == 3 || d[off] == 4) {
        lemma_entry_bound(d, off);
        if let Parsed::Done(e, o2) = entry_at(d, off) {
            if off < o2 <= d.len() {
                lemma_entries_bound(d, o2, nested);
            }
        }
    }
}

/// The entries of a nested map, or entries that are malformed, parse the
/// same on more input.
proof fn lemma_entries_stable(d: Seq<u8>, d1: Seq<u8>, off: int, nested: bool)
    requires
        agrees(d, d1),
        0 <= off <= d.len(),
        !(entries_at(d, off, nested) is Short),
        nested || entries_at(d, off, nested) is Malformed,
    ensures
        entries_at(d1, off, nested) == entries_at(d, off, nested),
    decreases d.len() - off, 2int,
{
    if off < d.len() {
        assert(d1[off] == d[off]);
        if d[off] == 1 || d[off] == 3 || d[off] == 4 {
            lemma_entry_stable(d, d1, off);
            lemma_entry_bound(d, off);
            if let Parsed::Done(e, o2) = entry_at(d, off) {
                if off < o2 {
                    lemma_entries_stable(d, d1, o2, nested);
                }
            }
        }
    }
}

/// What a decoder returns for the parse `p` of the input it has read, whose
/// source is `m` afterwards: exactly what the parse says, except that a
/// fallible source may fail where the input it gave ran out, or, for the
/// top-level map, where it ends between entries.
pub open spec fn outcome<T, U>(
    r: Result<T>,
    p: Parsed<U>,
    v: spec_fn(T) -> U,
    m: SourceModel,
    top: bool,
) -> bool {
    match p {
        Parsed::Done(x, o) => (r matches Ok(y) && v(y) == x && m.offset == o) || (top && (r matches Err(
            e,
        ) && source_failure(e, m))),
        Parsed::Short(_) => (r matches Err(e) && source_failure(e, m)) || reports(r, p, v),
        Parsed::Malformed(_, _) => reports(r, p, v),
    }
}

/// Reads the items of a scalar list, up to and including its `ListEnd`.
fn decode_items<'de, R: Read<'de>>(src: &mut R) -> (r: Result<Vec<Value>>)
    requires
        old(src).wf(),
    ensures
        final(src).wf(),
        grows(old(src).model(), final(src).model()),
        outcome(
            r,
            items_at(final(src).model().input, old(src).model().offset as int),
            |v: Vec<Value>| values_view(v@),
            final(src).model(),
            false,
        ),
        r is Ok ==> final(src).model().offset > old(src).model().offset,
{
    let ghost off0 = src.model().offset as int;
    let mut acc: Vec<Value> = Vec::new();
    let mut scratch: Vec<u8> = Vec::new();
    proof {
        assert forall|d: Seq<u8>| #[trigger]
            src.model().input.is_prefix_of(d) implies items_at(d, off0) == prepend(
            values_view(acc@),
            items_at(d, off0),
        ) by {
            match items_at(d, off0) {
                Parsed::Done(x, o) => {
                    assert(values_view(acc@) + x =~= x);
                },
                _ => {},
            }
        }
    }
    loop
        invariant
            src.wf(),
            grows(old(src).model(), src.model()),
            off0 == old(src).model().offset,
            src.model().offset >= off0,
            forall|d: Seq<u8>| #[trigger]
                src.model().input.is_prefix_of(d) ==> items_at(d, off0) == prepend(
                    values_view(acc@),
                    items_at(d, src.model().offset as int),
                ),
        decreases usize::MAX - src.model().offset,
    {
        proof {
            src.lemma_offset();
        }
        let ghost off = src.model().offset as int;
        let ghost d0 = src.model().input;
        let tag = src.parse_element_type();
        proof {
            src.lemma_offset();
            assert(src.model().input.is_prefix_of(src.model().input));
            assert(items_at(src.model().input, off0) == prepend(
                values_view(acc@),
                items_at(src.model().input, off),
            ));
        }
        let ghost d1 = src.model().input;
        match tag {
            Ok(t) => {
                if t == ElementType::ListEnd {
                    proof {
                        assert(values_view(acc@) + Seq::<Tree>::empty() =~= values_view(acc@));
                    }
                    return Ok(acc);
                } else if t == ElementType::ListItem {
                    let v = src.parse_value(&mut scratch);
                    proof {
                        src.lemma_offset();
                        lemma_agrees(d1, src.model().input);
                    }
                    let ghost d2 = src.model().input;
                    match v {
                        Ok(text) => {
                            let b = text_to_vec(text.get());
                            let ghost o1 = src.model().offset as int;
                            let ghost prev = values_view(acc@);
                            proof {
                                assert(d2[off] == 5);
                                assert(value_at(d2, off + 1) == Parsed::Done(b@, o1));
                            }
                            acc.push(Value::Text(b));
                            proof {
                                assert(values_view(acc@) =~= prev + seq![Tree::Text(b@)]);
                                assert forall|d: Seq<u8>| #[trigger]
                                    src.model().input.is_prefix_of(d) implies items_at(d, off0)
                                    == prepend(values_view(acc@), items_at(d, o1)) by {
                                    lemma_prefix_trans(d0, d2, d);
                                    lemma_agrees(d2, d);
                                    lemma_value_stable(d2, d, off + 1);
                                    assert(d[off] == 5);
                                    lemma_prepend_assoc(prev, seq![Tree::Text(b@)], items_at(d, o1));
                                }
                            }
                        },
                        Err(e) => {
                            proof {
                                assert(d2[off] == 5);
                                if e.code == ErrorCode::InvalidUnicodeCodePoint {
                                    lemma_first_invalid(
                                        token_text(d2, off + 1, 2),
                                        e.pos.unwrap() - off - 3,
                                    );
                                }
                                lemma_prefix_trans(d0, d1, d2);
                                assert(items_at(d2, off0) == prepend(
                                    values_view(acc@),
                                    items_at(d2, off),
                                ));
                            }
                            return Err(e);
                        },
                    }
                } else {
                    return Err(
                        Error::data(
                            ErrorCode::UnexpectedElementType,
                            Some(t.as_byte()),
                            Some(src.position()),
                        ),
                    );
                }
            },
            Err(e) => {
                return Err(e);
            },
        }
    }
}

/// Reads the key and the value of an entry whose tag `t` was just read.
fn decode_entry<'de, R: Read<'de>>(src: &mut R, t: ElementType) -> (r: Result<(Vec<u8>, Value)>)
    requires
        old(src).wf(),
        1 <= old(src).model().offset <= old(src).model().input.len(),
        old(src).model().input[old(src).model().offset - 1] == tag_byte(t),
        t == ElementType::KeyValue || t == ElementType::SectionStart || t
            == ElementType::ListStart,
    ensures
        final(src).wf(),
        grows(old(src).model(), final(src).model()),
        outcome(
            r,
            entry_at(final(src).model().input, old(src).model().offset - 1),
            |e: (Vec<u8>, Value)| (e.0@, e.1.view()),
            final(src).model(),
            false,
        ),
        r is Ok ==> final(src).model().offset > old(src).model().offset,
    decreases usize::MAX - old(src).model().offset + 1, 1int,
{
    let ghost off = src.model().offset - 1;
    let mut scratch: Vec<u8> = Vec::new();
    let named = src.parse_key(&mut scratch);
    proof {
        src.lemma_offset();
    }
    let ghost d1 = src.model().input;
    let key = match named {
        Ok(text) => text_to_vec(text.get()),
        Err(e) => {
            proof {
                if e.code == ErrorCode::InvalidUnicodeCodePoint {
                    lemma_first_invalid(token_text(d1, off + 1, 1), e.pos.unwrap() - off - 2);
                }
            }
            return Err(e);
        },
    };
    let ghost o1 = src.model().offset as int;
    proof {
        assert(key_at(d1, off + 1) == Parsed::Done(key@, o1));
    }
    let value = if t == ElementType::KeyValue {
        let v = src.parse_value(&mut scratch);
        proof {
            src.lemma_offset();
            lemma_agrees(d1, src.model().input);
            lemma_key_stable(d1, src.model().input, off + 1);
        }
        match v {
            Ok(text) => Value::Text(text_to_vec(text.get())),
            Err(e) => {
                proof {
                    if e.code == ErrorCode::InvalidUnicodeCodePoint {
                        lemma_first_invalid(
                            token_text(src.model().input, o1, 2),
                            e.pos.unwrap() - o1 - 2,
                        );
                    }
                }
                return Err(e);
            },
        }
    } else if t == ElementType::SectionStart {
        let inner = decode_entries(src, true);
        proof {
            src.lemma_offset();
            lemma_agrees(d1, src.model().input);
            lemma_key_stable(d1, src.model().input, off + 1);
        }
        match inner {
            Ok(es) => {
                proof {
                    assert(Value::Section(es).view()->Section_0 =~= entries_view(es@));
                }
                Value::Section(es)
            },
            Err(e) => {
                return Err(e);
            },
        }
    } else {
        let items = decode_items(src);
        proof {
            src.lemma_offset();
            lemma_agrees(d1, src.model().input);
            lemma_key_stable(d1, src.model().input, off + 1);
        }
        match items {
            Ok(items) => {
                proof {
                    assert(Value::List(items).view()->List_0 =~= values_view(items@));
                }
                Value::List(items)
            },
            Err(e) => {
                return Err(e);
            },
        }
    };
    Ok((key, value))
}

/// Reads the entries of a map: up to and including its `SectionEnd` if it
/// is `nested`, else up to the end of the input.
fn decode_entries<'de, R: Read<'de>>(src: &mut R, nested: bool) -> (r: Result<
    Vec<(Vec<u8>, Value)>,
>)
    requires
        old(src).wf(),
    ensures
        final(src).wf(),
        grows(old(src).model(), final(src).model()),
        outcome(
            r,
            entries_at(final(src).model().input, old(src).model().offset as int, nested),
            |v: Vec<(Vec<u8>, Value)>| entries_view(v@),
            final(src).model(),
            !nested,
        ),
        r is Ok ==> final(src).model().offset >= old(src).model().offset,
    decreases usize::MAX - old(src).model().offset, 2int,
{
    let ghost off0 = src.model().offset as int;
    let mut acc: Vec<(Vec<u8>, Value)> = Vec::new();
    proof {
        assert forall|d: Seq<u8>| #[trigger]
            src.model().input.is_prefix_of(d) implies entries_at(d, off0, nested) == prepend(
            entries_view(acc@),
            entries_at(d, off0, nested),
        ) by {
            match entries_at(d, off0, nested) {
                Parsed::Done(x, o) => {
                    assert(entries_view(acc@) + x =~= x);
                },
                _ => {},
            }
        }
    }
    loop
        invariant
            src.wf(),
            grows(old(src).model(), src.model()),
            off0 == old(src).model().offset,
            src.model().offset >= off0,
            forall|d: Seq<u8>| #[trigger]
                src.model().input.is_prefix_of(d) ==> entries_at(d, off0, nested) == prepend(
                    entries_view(acc@),
                    entries_at(d, src.model().offset as int, nested),
                ),
        decreases usize::MAX - src.model().offset,
    {
        proof {
            src.lemma_offset();
        }
        let ghost off = src.model().offset as int;
        let ghost d0 = src.model().input;
        let tag = src.parse_element_type();
        proof {
            src.lemma_offset();
            assert(src.model().input.is_prefix_of(src.model().input));
            assert(entries_at(src.model().input, off0, nested) == prepend(
                entries_view(acc@),
                entries_at(src.model().input, off, nested),
            ));
        }
        let ghost d1 = src.model().input;
        match tag {
            Ok(t) => {
                if t == ElementType::SectionEnd {
                    if nested {
                        proof {
                            assert(entries_view(acc@) + Seq::<(Seq<u8>, Tree)>::empty()
                                =~= entries_view(acc@));
                        }
                        return Ok(acc);
                    }
                    return Err(
                        Error::data(
                            ErrorCode::UnexpectedElementType,
                            Some(t.as_byte()),
                            Some(src.position()),
                        ),
                    );
                } else if t == ElementType::KeyValue || t == ElementType::SectionStart || t
                    == ElementType::ListStart {
                    let entry = decode_entry(src, t);
                    proof {
                        src.lemma_offset();
                        lemma_prefix_trans(d0, d1, src.model().input);
                    }
                    let ghost d2 = src.model().input;
                    proof {
                        lemma_agrees(d1, d2);
                        assert(d2[off] == d1[off]);
                        assert(entries_at(d2, off0, nested) == prepend(
                            entries_view(acc@),
                            entries_at(d2, off, nested),
                        ));
                    }
                    match entry {
                        Ok(e) => {
                            let ghost o2 = src.model().offset as int;
                            let ghost prev = entries_view(acc@);
                            let ghost ev = (e.0@, e.1.view());
                            acc.push(e);
                            proof {
                                assert(entries_view(acc@) =~= prev + seq![ev]);
                                assert forall|d: Seq<u8>| #[trigger]
                                    src.model().input.is_prefix_of(d) implies entries_at(
                                    d,
                                    off0,
                                    nested,
                                ) == prepend(entries_view(acc@), entries_at(d, o2, nested)) by {
                                    lemma_prefix_trans(d0, d2, d);
                                    lemma_agrees(d2, d);
                                    lemma_entry_stable(d2, d, off);
                                    assert(d[off] == d2[off]);
                                    lemma_prepend_assoc(prev, seq![ev], entries_at(d, o2, nested));
                                }
                            }
                        },
                        Err(e) => {
                            return Err(e);
                        },
                    }
                } else {
                    return Err(
                        Error::data(
                            ErrorCode::UnexpectedElementType,
                            Some(t.as_byte()),
                            Some(src.position()),
                        ),
                    );
                }
            },
            Err(e) => {
                if e.is_eof() && !nested {
                    proof {
                        assert(entries_view(acc@) + Seq::<(Seq<u8>, Tree)>::empty()
                            =~= entries_view(acc@));
                    }
                    return Ok(acc);
                }
                return Err(e);
            },
        }
    }
}

/// Decodes a whole message held in `slice` into the map of its top level.
///
/// It succeeds exactly when the bytes parse as a message. It fails with an
/// end-of-input error exactly when they are a message cut short, and with a
/// data error exactly when they are not valid VICI; either way at the offset,
/// and with the offending byte, that the parse gives.
pub fn from_slice(slice: &[u8]) -> (r: Result<Value>)
    ensures
        reports(r, parse_message(slice@), |v: Value| v.view()->Section_0),
        r matches Ok(v) ==> v.view() is Section,
{
    let mut src = SliceRead::new(slice);
    proof {
        src.lemma_complete();
    }
    let decoded = decode_entries(&mut src, false);
    proof {
        src.lemma_complete();
    }
    match decoded {
        Ok(es) => {
            proof {
                assert(Value::Section(es).view()->Section_0 =~= entries_view(es@));
            }
            Ok(Value::Section(es))
        },
        Err(e) => Err(e),
    }
}

/// Whether `r` reports that a byte stream failed.
pub open spec fn stream_failed<T>(r: Result<T>) -> bool {
    r matches Err(e) && (e.code matches ErrorCode::Io(_) || e.code == ErrorCode::LengthOverflow)
}

/// Decodes a whole message from a byte stream into the map of its top level,
/// reading it in chunks as the parse needs them.
///
/// Unless the stream itself fails, the result is what the parse of the bytes
/// it gave says, as for [`from_slice`].
pub fn from_reader<R: ByteSource>(reader: R) -> (r: Result<Value>)
    ensures
        r matches Ok(v) ==> v.view() is Section,
        stream_failed(r) || exists|d: Seq<u8>|
            reports(r, #[trigger] parse_message(d), |v: Value| v.view()->Section_0),
{
    let mut src = IoRead::new(reader);
    let decoded = decode_entries(&mut src, false);
    let ghost d = src.model().input;
    let r = match decoded {
        Ok(es) => {
            proof {
                assert(Value::Section(es).view()->Section_0 =~= entries_view(es@));
            }
            Ok(Value::Section(es))
        },
        Err(e) => Err(e),
    };
    proof {
        if !stream_failed(r) {
            assert(reports(r, parse_message(d), |v: Value| v.view()->Section_0));
        }
    }
    r
}

} // verus!
