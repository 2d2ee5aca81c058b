//! Writes values in the VICI protocol.
//!
//! The [`Serializer`] is a state machine: each step writes one tag, key or
//! value, and its contract says exactly which bytes it appends. [`to_vec`]
//! drives it over a [`Value`].
use vstd::prelude::*;
use vstd::string::StringSliceAdditionalSpecFns;

use crate::error::{Error, ErrorCode, Result};
use crate::value::{
    check_entries, decimal, encodable_entries, encodable_value, entries_bytes, entries_within,
    encode_message, entry_bytes, entry_chunks, entry_tag, entry_value_bytes, is_scalar, item_chunks, key_token,
    probe, record_chunks, scalar_token, value_token, value_within, FieldType, ListElement,
    Value,
};
use crate::{tag_byte, ElementType};

verus! {

/// Relies on `bytes::BufMut::put_u8` for `Vec<u8>`: it appends the byte.
#[verifier::external_body]
fn put_u8(buf: &mut Vec<u8>, n: u8)
    ensures
        final(buf)@ == old(buf)@.push(n),
{
    bytes::BufMut::put_u8(buf, n)
}

/// Relies on `bytes::BufMut::put_u16` for `Vec<u8>`: it appends the two
/// bytes of `n`, most significant first.
#[verifier::external_body]
fn put_u16(buf: &mut Vec<u8>, n: u16)
    ensures
        final(buf)@ == old(buf)@ + seq![(n / 256) as u8, (n % 256) as u8],
{
    bytes::BufMut::put_u16(buf, n)
}

/// Relies on `bytes::BufMut::put_slice` for `Vec<u8>`: it appends `src`.
#[verifier::external_body]
fn put_slice(buf: &mut Vec<u8>, src: &[u8])
    ensures
        final(buf)@ == old(buf)@ + src@,
{
    bytes::BufMut::put_slice(buf, src)
}

/// Relies on `itoa::Buffer::format` for `u64`: the canonical decimal text.
#[verifier::external_body]
fn decimal_u64(v: u64) -> (r: Vec<u8>)
    ensures
        r@ == decimal(v as nat),
{
    let mut buf = itoa::Buffer::new();
    buf.format(v).as_bytes().to_vec()
}

/// Relies on `itoa::Buffer::format` for `i64`: the canonical decimal text,
/// with a minus sign before a negative number.
#[verifier::external_body]
fn decimal_i64(v: i64) -> (r: Vec<u8>)
    ensures
        r@ == signed_decimal(v as int),
{
    let mut buf = itoa::Buffer::new();
    buf.format(v).as_bytes().to_vec()
}

/// The decimal text of an integer, with a minus sign if it is negative.
pub open spec fn signed_decimal(v: int) -> Seq<u8> {
    if v < 0 {
        seq![45u8] + decimal((-v) as nat)
    } else {
        decimal(v as nat)
    }
}

/// The text of a boolean.
pub open spec fn bool_text(v: bool) -> Seq<u8> {
    if v {
        seq![121u8, 101u8, 115u8]
    } else {
        seq![110u8, 111u8]
    }
}

/// Where the serializer stands in the message.
#[derive(Clone, Copy, Debug, PartialEq, Eq, Structural)]
pub enum State {
    /// At the top level, outside any entry.
    Root,
    /// Writing the key of an entry whose value has the given shape.
    Key(FieldType),
    /// Writing the value of an entry.
    Value,
    /// Inside a list of the given kind; the number is the index of the
    /// element last begun, if any.
    ListItem(ListElement, Option<usize>),
}

/// The width of the length prefix that a scalar written in state `s` gets:
/// one byte for keys and list names, two for values, none at the top level.
pub open spec fn width(s: State) -> int {
    match s {
        State::Root => 0,
        State::Key(_) => 1,
        State::ListItem(_, None) => 1,
        _ => 2,
    }
}

/// Whether a scalar of `n` bytes fits the prefix of state `s`.
pub open spec fn fits(s: State, n: nat) -> bool {
    if width(s) == 1 {
        n <= 255
    } else {
        width(s) == 2 && n <= 65535
    }
}

/// The scalar `v` as written in state `s`.
pub open spec fn framed(s: State, v: Seq<u8>) -> Seq<u8> {
    if width(s) == 1 {
        key_token(v)
    } else {
        value_token(v)
    }
}

/// The absent value as written in state `s`: a zero length.
pub open spec fn absent_token(s: State) -> Seq<u8> {
    if width(s) == 1 {
        seq![0u8]
    } else {
        seq![0u8, 0u8]
    }
}

/// The state in which the key of an entry with value shape `f` is written.
pub open spec fn key_state(f: FieldType) -> State {
    match f {
        FieldType::List(k) => State::ListItem(k, None),
        _ => State::Key(f),
    }
}

/// A serializer that writes VICI into a byte buffer that it owns.
pub struct Serializer {
    writer: Vec<u8>,
    level: Option<usize>,
    state: State,
}

impl Serializer {
    /// The bytes written so far.
    pub closed spec fn out(&self) -> Seq<u8> {
        self.writer@
    }

    /// The number of open maps, if any.
    pub closed spec fn depth(&self) -> Option<usize> {
        self.level
    }

    /// Where the serializer stands.
    pub closed spec fn at(&self) -> State {
        self.state
    }

    /// A serializer at the top level that has written nothing.
    pub fn new() -> (r: Self)
        ensures
            r.out() == Seq::<u8>::empty(),
            r.depth().is_none(),
            r.at() == State::Root,
    {
        let level = None;
        let state = State::Root;
        Self { writer: Vec::new(), level, state }
    }

    /// The bytes written so far.
    pub fn output(&self) -> (r: &[u8])
        ensures
            r@ == self.out(),
    {
        self.writer.as_slice()
    }

    /// The buffer with all bytes written.
    pub fn into_inner(self) -> (r: Vec<u8>)
        ensures
            r@ == self.out(),
    {
        self.writer
    }

    /// Writes a scalar with the length prefix that the state asks for.
    pub fn serialize_bytes(&mut self, v: &[u8]) -> (r: Result<()>)
        ensures
            final(self).at() == old(self).at(),
            final(self).depth() == old(self).depth(),
            r is Ok <==> fits(old(self).at(), v@.len()),
            r is Ok ==> final(self).out() == old(self).out() + framed(old(self).at(), v@),
            r is Err ==> final(self).out() == old(self).out(),
    {
        match self.state {
            State::Root => {
                return Err(Error::data(ErrorCode::UnexpectedState, None, None));
            },
            State::Key(_) | State::ListItem(_, None) => {
                if v.len() > 255 {
                    return Err(Error::data(ErrorCode::LengthOverflow, None, None));
                }
                put_u8(&mut self.writer, v.len() as u8);
            },
            State::Value | State::ListItem(_, _) => {
                if v.len() > 65535 {
                    return Err(Error::data(ErrorCode::LengthOverflow, None, None));
                }
                put_u16(&mut self.writer, v.len() as u16);
            },
        }
        put_slice(&mut self.writer, v);
        proof {
            assert(self.writer@ =~= old(self).writer@ + framed(old(self).state, v@));
        }
        Ok(())
    }

    /// Writes an absent value: a zero length of the width that the state
    /// asks for.
    pub fn serialize_none(&mut self) -> (r: Result<()>)
        ensures
            final(self).at() == old(self).at(),
            final(self).depth() == old(self).depth(),
            r is Ok <==> width(old(self).at()) != 0,
            r is Ok ==> final(self).out() == old(self).out() + absent_token(old(self).at()),
            r is Err ==> final(self).out() == old(self).out(),
    {
        match self.state {
            State::Root => {
                return Err(Error::data(ErrorCode::UnexpectedState, None, None));
            },
            State::Key(_) | State::ListItem(_, None) => {
                put_u8(&mut self.writer, 0);
            },
            State::Value | State::ListItem(_, _) => {
                put_u16(&mut self.writer, 0);
            },
        }
        proof {
            assert(self.writer@ =~= old(self).writer@ + absent_token(old(self).state));
        }
        Ok(())
    }

    /// Writes a boolean as `yes` or `no`.
    pub fn serialize_bool(&mut self, v: bool) -> (r: Result<()>)
        ensures
            final(self).at() == old(self).at(),
            final(self).depth() == old(self).depth(),
            r is Ok <==> width(old(self).at()) != 0,
            r is Ok ==> final(self).out() == old(self).out() + framed(old(self).at(), bool_text(v)),
            r is Err ==> final(self).out() == old(self).out(),
    {
        let text: Vec<u8> = if v {
            vec![121u8, 101u8, 115u8]
        } else {
            vec![110u8, 111u8]
        };
        proof {
            assert(text@ =~= bool_text(v));
        }
        self.serialize_bytes(text.as_slice())
    }

    /// Writes text.
    pub fn serialize_str(&mut self, v: &str) -> (r: Result<()>)
        ensures
            final(self).at() == old(self).at(),
            final(self).depth() == old(self).depth(),
            r is Ok <==> fits(old(self).at(), v.spec_bytes().len()),
            r is Ok ==> final(self).out() == old(self).out() + framed(old(self).at(), v.spec_bytes()),
            r is Err ==> final(self).out() == old(self).out(),
    {
        self.serialize_bytes(v.as_bytes())
    }

    /// Writes an unsigned integer as canonical decimal text.
    pub fn serialize_u64(&mut self, v: u64) -> (r: Result<()>)
        ensures
            final(self).at() == old(self).at(),
            final(self).depth() == old(self).depth(),
            r is Ok <==> width(old(self).at()) != 0,
            r is Ok ==> final(self).out() == old(self).out() + framed(old(self).at(), decimal(v as nat)),
            r is Err ==> final(self).out() == old(self).out(),
    {
        let text = decimal_u64(v);
        proof {
            lemma_decimal_len(v as nat);
        }
        self.serialize_bytes(text.as_slice())
    }

    /// Writes a signed integer as canonical decimal text.
    pub fn serialize_i64(&mut self, v: i64) -> (r: Result<()>)
        ensures
            final(self).at() == old(self).at(),
            final(self).depth() == old(self).depth(),
            r is Ok <==> width(old(self).at()) != 0,
            r is Ok ==> final(self).out() == old(self).out() + framed(
                old(self).at(),
                signed_decimal(v as int),
            ),
            r is Err ==> final(self).out() == old(self).out(),
    {
        let text = decimal_i64(v);
        proof {
            if v < 0 {
                lemma_decimal_len((-v) as nat);
            } else {
                lemma_decimal_len(v as nat);
            }
        }
        self.serialize_bytes(text.as_slice())
    }

    /// Opens a map: one more level of nesting.
    pub fn serialize_map(&mut self) -> (r: Result<()>)
        ensures
            final(self).at() == old(self).at(),
            final(self).out() == old(self).out(),
            r is Ok <==> old(self).depth() != Some(usize::MAX),
            r is Ok ==> final(self).depth() == Some(
                (match old(self).depth() {
                    Some(l) => l + 1,
                    None => 1,
                }) as usize,
            ),
            r is Err ==> final(self).depth() == old(self).depth(),
    {
        match self.level {
            Some(l) => {
                if l == usize::MAX {
                    return Err(Error::data(ErrorCode::LengthOverflow, None, None));
                }
                self.level = Some(l + 1);
            },
            None => {
                self.level = Some(1);
            },
        }
        Ok(())
    }

    /// Closes a map. A nested map ends with `SectionEnd`; the top-level map
    /// has no frame.
    pub fn end_map(&mut self)
        ensures
            final(self).at() == old(self).at(),
            match old(self).depth() {
                Some(l) if l > 1 => {
                    &&& final(self).depth() == Some((l - 1) as usize)
                    &&& final(self).out() == old(self).out().push(
                        tag_byte(ElementType::SectionEnd),
                    )
                },
                _ => final(self).depth() == old(self).depth() && final(self).out() == old(
                    self,
                ).out(),
            },
    {
        match self.level {
            Some(l) => {
                if l > 1 {
                    self.level = Some(l - 1);
                    put_u8(&mut self.writer, ElementType::SectionEnd.as_byte());
                }
            },
            None => {},
        }
    }

    /// Begins a map entry whose value has shape `field`: writes the tag that
    /// the shape implies and gets ready for the key.
    pub fn begin_entry(&mut self, field: FieldType)
        ensures
            final(self).depth() == old(self).depth(),
            final(self).at() == key_state(field),
            final(self).out() == old(self).out().push(tag_byte(entry_tag(field))),
    {
        let element = match field {
            FieldType::List(ListElement::Section) => {
                self.state = State::ListItem(ListElement::Section, None);
                ElementType::SectionStart
            },
            FieldType::List(ListElement::String) => {
                self.state = State::ListItem(ListElement::String, None);
                ElementType::ListStart
            },
            FieldType::Section => {
                self.state = State::Key(field);
                ElementType::SectionStart
            },
            FieldType::String => {
                self.state = State::Key(field);
                ElementType::KeyValue
            },
        };
        put_u8(&mut self.writer, element.as_byte());
    }

    /// After the key of an entry: gets ready for its value. A list stays in
    /// its list state.
    pub fn begin_value(&mut self)
        ensures
            final(self).depth() == old(self).depth(),
            final(self).out() == old(self).out(),
            final(self).at() == (if old(self).at() is ListItem {
                old(self).at()
            } else {
                State::Value
            }),
    {
        match self.state {
            State::ListItem(_, _) => {},
            _ => {
                self.state = State::Value;
            },
        }
    }

    /// Begins a list element. In a scalar list it writes `ListItem`; in a
    /// list of sections it writes `SectionStart` and the element's index as
    /// its name, and returns that index for [`Serializer::end_element`].
    pub fn begin_element(&mut self) -> (r: Result<Option<usize>>)
        ensures
            final(self).depth() == old(self).depth(),
            match old(self).at() {
                State::ListItem(ListElement::String, o) => {
                    &&& r matches Ok(None)
                    &&& final(self).at() == State::ListItem(ListElement::String, Some(0usize))
                    &&& final(self).out() == old(self).out().push(
                        tag_byte(ElementType::ListItem),
                    )
                },
                State::ListItem(ListElement::Section, o) => {
                    let index: usize = match o {
                        Some(i) => i,
                        None => 0,
                    };
                    &&& r matches Ok(Some(j)) && j == index
                    &&& final(self).at() == State::ListItem(ListElement::Section, Some(index))
                    &&& final(self).out() == old(self).out().push(
                        tag_byte(ElementType::SectionStart),
                    ) + key_token(decimal(index as nat))
                },
                _ => r is Err && final(self).out() == old(self).out() && final(self).at() == old(
                    self,
                ).at(),
            },
    {
        match self.state {
            State::ListItem(ListElement::String, _) => {
                put_u8(&mut self.writer, ElementType::ListItem.as_byte());
                self.state = State::ListItem(ListElement::String, Some(0));
                Ok(None)
            },
            State::ListItem(ListElement::Section, o) => {
                put_u8(&mut self.writer, ElementType::SectionStart.as_byte());
                self.state = State::Key(FieldType::Section);
                let index: usize = match o {
                    Some(i) => i,
                    None => 0,
                };
                let text = decimal_u64(index as u64);
                proof {
                    lemma_decimal_len(index as nat);
                }
                let ghost mid = self.writer@;
                let written = self.serialize_bytes(text.as_slice());
                assert(written is Ok);
                proof {
                    assert(self.writer@ =~= old(self).writer@.push(
                        tag_byte(ElementType::SectionStart),
                    ) + key_token(decimal(index as nat)));
                }
                self.state = State::ListItem(ListElement::Section, Some(index));
                Ok(Some(index))
            },
            _ => Err(Error::data(ErrorCode::UnexpectedState, None, None)),
        }
    }

    /// Ends a list element. After an element of a list of sections, the
    /// list state comes back with the next index.
    pub fn end_element(&mut self, index: Option<usize>) -> (r: Result<()>)
        ensures
            final(self).depth() == old(self).depth(),
            final(self).out() == old(self).out(),
            match index {
                Some(i) => {
                    &&& r is Ok <==> i < usize::MAX
                    &&& r is Ok ==> final(self).at() == State::ListItem(
                        ListElement::Section,
                        Some((i + 1) as usize),
                    )
                    &&& r is Err ==> final(self).at() == old(self).at()
                },
                None => r is Ok && final(self).at() == old(self).at(),
            },
    {
        match index {
            Some(i) => {
                if i == usize::MAX {
                    return Err(Error::data(ErrorCode::LengthOverflow, None, None));
                }
                self.state = State::ListItem(ListElement::Section, Some(i + 1));
                Ok(())
            },
            None => Ok(()),
        }
    }

    /// Ends a list: `ListEnd` after scalars, `SectionEnd` after sections.
    pub fn end_seq(&mut self)
        ensures
            final(self).depth() == old(self).depth(),
            final(self).at() == old(self).at(),
            final(self).out() == match old(self).at() {
                State::ListItem(ListElement::String, _) => old(self).out().push(
                    tag_byte(ElementType::ListEnd),
                ),
                State::ListItem(ListElement::Section, _) => old(self).out().push(
                    tag_byte(ElementType::SectionEnd),
                ),
                _ => old(self).out(),
            },
    {
        match self.state {
            State::ListItem(ListElement::String, _) => {
                put_u8(&mut self.writer, ElementType::ListEnd.as_byte());
            },
            State::ListItem(ListElement::Section, _) => {
                put_u8(&mut self.writer, ElementType::SectionEnd.as_byte());
            },
            _ => {},
        }
    }
}

/// Powers of ten.
pub open spec fn pow10(k: nat) -> nat
    decreases k,
{
    if k == 0 {
        1
    } else {
        10 * pow10((k - 1) as nat)
    }
}

proof fn lemma_decimal_len_below(n: nat, k: nat)
    requires
        k >= 1,
        n < pow10(k),
    ensures
        decimal(n).len() <= k,
    decreases n,
{
    if n >= 10 {
        assert(k >= 2) by {
            if k == 1 {
                assert(pow10(1) == 10 * pow10(0));
            }
        }
        let k1 = (k - 1) as nat;
        assert(pow10(k) == 10 * pow10(k1));
        assert(n / 10 < pow10(k1)) by (nonlinear_arith)
            requires
                n < 10 * pow10(k1),
        ;
        lemma_decimal_len_below(n / 10, k1);
    }
}

/// The decimal text of a 64-bit number has at most 20 digits.
pub(crate) proof fn lemma_decimal_len(n: nat)
    requires
        n <= u64::MAX,
    ensures
        decimal(n).len() <= 20,
{
    assert(pow10(20) == 100000000000000000000nat) by {
        reveal_with_fuel(pow10, 21);
    }
    lemma_decimal_len_below(n, 20);
}

/// Taking one more chunk extends the flattened prefix by that chunk.
proof fn lemma_take_flatten(c: Seq<Seq<u8>>, i: int)
    requires
        0 <= i < c.len(),
    ensures
        c.take(i + 1).flatten() == c.take(i).flatten() + c[i],
{
    assert(c.take(i + 1) =~= c.take(i).push(c[i]));
    c.take(i).lemma_flatten_push(c[i]);
}

/// Writes the scalar `x` in value position.
fn write_scalar(ser: &mut Serializer, x: &Value) -> (r: Result<()>)
    requires
        is_scalar(x.view()),
        width(old(ser).at()) == 2,
    ensures
        r is Ok,
        final(ser).out() == old(ser).out() + scalar_token(x.view()),
        final(ser).at() == old(ser).at(),
        final(ser).depth() == old(ser).depth(),
{
    match x {
        Value::Text(b) => ser.serialize_bytes(b.as_slice()),
        _ => ser.serialize_none(),
    }
}

/// Writes the entries of the section `v` at the current level.
fn write_entries(ser: &mut Serializer, v: &Value) -> (r: Result<()>)
    requires
        v.view() is Section,
        encodable_entries(v.view()),
        old(ser).depth() matches Some(l) && l >= 1 && entries_within(
            v.view(),
            (usize::MAX - l) as nat,
        ),
    ensures
        r is Ok,
        final(ser).out() == old(ser).out() + entries_bytes(v.view()),
        final(ser).depth() == old(ser).depth(),
    decreases v, 0int,
{
    match v {
        Value::Section(es) => {
            let ghost t = v.view();
            let ghost c = entry_chunks(t);
            let ghost l = old(ser).depth()->Some_0;
            let mut i: usize = 0;
            while i < es.len()
                invariant
                    i <= es@.len(),
                    *v == Value::Section(*es),
                    t == v.view(),
                    c == entry_chunks(t),
                    c.len() == es@.len(),
                    encodable_entries(t),
                    entries_within(t, (usize::MAX - l) as nat),
                    ser.depth() == Some(l),
                    l >= 1,
                    ser.out() == old(ser).out() + c.take(i as int).flatten(),
                decreases es@.len() - i,
            {
                let (k, x) = &es[i];
                proof {
                    assert(t->Section_0[i as int] == (k@, x.view()));
                    assert(c[i as int] == entry_bytes(k@, x.view()));
                    lemma_take_flatten(c, i as int);
                }
                let f = FieldType::from(x);
                ser.begin_entry(f);
                let keyed = ser.serialize_bytes(k.as_slice());
                assert(keyed is Ok);
                ser.begin_value();
                let written = write_entry_value(ser, x);
                assert(written is Ok);
                proof {
                    assert(ser.out() =~= old(ser).out() + c.take(i + 1).flatten());
                }
                i = i + 1;
            }
            proof {
                assert(c.take(es@.len() as int) =~= c);
            }
            Ok(())
        },
        _ => Ok(()),
    }
}

/// Writes the value `x` of a map entry, after its tag and key.
fn write_entry_value(ser: &mut Serializer, x: &Value) -> (r: Result<()>)
    requires
        encodable_value(x.view()),
        old(ser).depth() matches Some(l) && l >= 1 && value_within(
            x.view(),
            (usize::MAX - l) as nat,
        ),
        old(ser).at() == (match probe(x.view()) {
            FieldType::List(k) => State::ListItem(k, None),
            _ => State::Value,
        }),
    ensures
        r is Ok,
        final(ser).out() == old(ser).out() + entry_value_bytes(x.view()),
        final(ser).depth() == old(ser).depth(),
    decreases x, 1int,
{
    let ghost l = old(ser).depth()->Some_0;
    match x {
        Value::Section(_) => {
            let opened = ser.serialize_map();
            assert(opened is Ok);
            let written = write_entries(ser, x);
            assert(written is Ok);
            ser.end_map();
            Ok(())
        },
        Value::List(items) => {
            let ghost t = x.view();
            let ghost elems = t->List_0;
            if FieldType::from(x) == FieldType::List(ListElement::Section) {
                let ghost c = record_chunks(t);
                let mut i: usize = 0;
                while i < items.len()
                    invariant
                        i <= items@.len(),
                        *x == Value::List(*items),
                        t == x.view(),
                        elems == t->List_0,
                        c == record_chunks(t),
                        c.len() == items@.len(),
                        encodable_value(t),
                        probe(t) == FieldType::List(ListElement::Section),
                        value_within(t, (usize::MAX - l) as nat),
                        ser.depth() == Some(l),
                        l >= 1,
                        ser.at() == State::ListItem(
                            ListElement::Section,
                            if i == 0 {
                                None
                            } else {
                                Some(i)
                            },
                        ),
                        ser.out() == old(ser).out() + c.take(i as int).flatten(),
                    decreases items@.len() - i,
                {
                    let item = &items[i];
                    proof {
                        assert(elems[i as int] == item.view());
                        assert(elems[0] is Section);
                        assert(elems[i as int] is Section && encodable_entries(elems[i as int]));
                        assert(c[i as int] == seq![1u8] + key_token(decimal(i as nat))
                            + entries_bytes(item.view()) + seq![2u8]);
                        lemma_take_flatten(c, i as int);
                    }
                    let index = ser.begin_element();
                    let opened = ser.serialize_map();
                    assert(opened is Ok);
                    let written = write_entries(ser, item);
                    assert(written is Ok);
                    ser.end_map();
                    let ended = ser.end_element(Some(i));
                    assert(ended is Ok);
                    proof {
                        assert(ser.out() =~= old(ser).out() + c.take(i + 1).flatten());
                    }
                    i = i + 1;
                }
                ser.end_seq();
                proof {
                    assert(c.take(items@.len() as int) =~= c);
                }
                Ok(())
            } else {
                let ghost c = item_chunks(elems);
                let mut i: usize = 0;
                while i < items.len()
                    invariant
                        i <= items@.len(),
                        *x == Value::List(*items),
                        t == x.view(),
                        elems == t->List_0,
                        c == item_chunks(elems),
                        c.len() == items@.len(),
                        encodable_value(t),
                        probe(t) == FieldType::List(ListElement::String),
                        ser.depth() == Some(l),
                        ser.at() is ListItem && ser.at()->ListItem_0 == ListElement::String,
                        ser.out() == old(ser).out() + c.take(i as int).flatten(),
                    decreases items@.len() - i,
                {
                    let item = &items[i];
                    proof {
                        assert(elems[i as int] == item.view());
                        if !is_scalar(elems[i as int]) {
                            assert(elems[i as int] is Section);
                            assert(elems[0] is Section);
                        }
                        assert(c[i as int] == seq![5u8] + scalar_token(item.view()));
                        lemma_take_flatten(c, i as int);
                    }
                    let index = ser.begin_element();
                    let written = write_scalar(ser, item);
                    assert(written is Ok);
                    let ended = ser.end_element(None);
                    proof {
                        assert(ser.out() =~= old(ser).out() + c.take(i + 1).flatten());
                    }
                    i = i + 1;
                }
                ser.end_seq();
                proof {
                    assert(c.take(items@.len() as int) =~= c);
                }
                Ok(())
            }
        },
        _ => write_scalar(ser, x),
    }
}

/// Encodes the map `value` as a VICI message.
///
/// The top level is written as bare entries. It fails, and writes nothing,
/// exactly when the value cannot be written: a top level that is not a map,
/// a key over 255 or a scalar over 65535 bytes, a list that mixes scalars
/// and sections or holds lists, or more nesting than a `usize` counts.
pub fn to_vec(value: &Value) -> (r: Result<Vec<u8>>)
    ensures
        r is Ok <==> (encodable_entries(value.view()) && entries_within(
            value.view(),
            (usize::MAX - 1) as nat,
        )),
        r matches Ok(b) ==> b@ == encode_message(value.view()),
{
    if !check_entries(value, usize::MAX - 1) {
        return Err(Error::data(ErrorCode::Unsupported, None, None));
    }
    let mut ser = Serializer::new();
    let opened = ser.serialize_map();
    assert(opened is Ok);
    let written = write_entries(&mut ser, value);
    assert(written is Ok);
    ser.end_map();
    Ok(ser.into_inner())
}

} // verus!
