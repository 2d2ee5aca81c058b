//! The generic value model that the codec encodes and decodes, and the type
//! probe that classifies a value's shape before it is written.
use vstd::prelude::*;

use crate::{tag_byte, ElementType};

verus! {

broadcast use vstd::std_specs::vec::axiom_vec_index_decreases;

/// The kind of the elements of a list.
#[derive(Clone, Copy, Debug, PartialEq, Eq, Structural)]
pub enum ListElement {
    /// Scalar values, each framed by a `ListItem` tag.
    String,
    /// Anonymous sections, each named by its index.
    Section,
}

/// The shape of a map entry's value, which decides the tag that opens it.
#[derive(Clone, Copy, Debug, PartialEq, Eq, Structural)]
pub enum FieldType {
    /// A scalar, or an absent value: `KeyValue`.
    String,
    /// A nested map: `SectionStart`.
    Section,
    /// A sequence: `ListStart` for scalars, `SectionStart` for sections.
    List(ListElement),
}

/// A structured value: maps, sequences, scalars and absent optionals.
#[derive(Debug, PartialEq, Eq)]
pub enum Value {
    /// An absent optional value.
    Absent,
    /// A scalar, as the bytes of its text.
    Text(Vec<u8>),
    /// An ordered map from keys to values.
    Section(Vec<(Vec<u8>, Value)>),
    /// A sequence of values.
    List(Vec<Value>),
}

/// The mathematical model of a [`Value`].
pub enum Tree {
    Absent,
    Text(Seq<u8>),
    Section(Seq<(Seq<u8>, Tree)>),
    List(Seq<Tree>),
}

/// The shape of a value for tagging: scalars and absent values are written
/// as key/value pairs, maps as sections, and a sequence takes its kind from
/// its first element.
pub open spec fn probe(t: Tree) -> FieldType {
    match t {
        Tree::Section(_) => FieldType::Section,
        Tree::List(items) => if items.len() > 0 && items[0] is Section {
            FieldType::List(ListElement::Section)
        } else {
            FieldType::List(ListElement::String)
        },
        _ => FieldType::String,
    }
}

/// The decimal text of `n`, without leading zeros.
pub open spec fn decimal(n: nat) -> Seq<u8>
    decreases n,
{
    if n < 10 {
        seq![(n + 48) as u8]
    } else {
        decimal(n / 10).push((n % 10 + 48) as u8)
    }
}

/// A key on the wire: one length byte, then the bytes.
pub open spec fn key_token(k: Seq<u8>) -> Seq<u8> {
    seq![k.len() as u8] + k
}

/// A value on the wire: a two-byte big-endian length, then the bytes.
pub open spec fn value_token(b: Seq<u8>) -> Seq<u8> {
    seq![(b.len() / 256) as u8, (b.len() % 256) as u8] + b
}

/// A scalar in value position; an absent value is a zero length.
pub open spec fn scalar_token(t: Tree) -> Seq<u8> {
    match t {
        Tree::Text(b) => value_token(b),
        _ => seq![0u8, 0u8],
    }
}

/// The tag that opens an entry whose value has shape `f`.
pub open spec fn entry_tag(f: FieldType) -> ElementType {
    match f {
        FieldType::String => ElementType::KeyValue,
        FieldType::Section => ElementType::SectionStart,
        FieldType::List(ListElement::Section) => ElementType::SectionStart,
        FieldType::List(ListElement::String) => ElementType::ListStart,
    }
}

/// The wire bytes of each entry of the section `t`.
pub open spec fn entry_chunks(t: Tree) -> Seq<Seq<u8>>
    decreases t, 0int,
{
    match t {
        Tree::Section(es) => Seq::new(
            es.len(),
            |i: int|
                if 0 <= i < es.len() {
                    entry_bytes(es[i].0, es[i].1)
                } else {
                    Seq::empty()
                },
        ),
        _ => Seq::empty(),
    }
}

/// The wire bytes of the entries of the section `t`, without a frame.
pub open spec fn entries_bytes(t: Tree) -> Seq<u8>
    decreases t, 1int,
{
    entry_chunks(t).flatten()
}

/// The wire bytes of each element of the list of sections `v`: the element
/// framed as a section named by its index.
pub open spec fn record_chunks(v: Tree) -> Seq<Seq<u8>>
    decreases v, 1int,
{
    match v {
        Tree::List(items) => Seq::new(
            items.len(),
            |i: int|
                if 0 <= i < items.len() {
                    seq![1u8] + key_token(decimal(i as nat)) + entries_bytes(items[i]) + seq![2u8]
                } else {
                    Seq::empty()
                },
        ),
        _ => Seq::empty(),
    }
}

/// The wire bytes of each item of a scalar list.
pub open spec fn item_chunks(items: Seq<Tree>) -> Seq<Seq<u8>> {
    Seq::new(items.len(), |i: int| seq![5u8] + scalar_token(items[i]))
}

/// The wire bytes that follow the key of an entry whose value is `v`.
pub open spec fn entry_value_bytes(v: Tree) -> Seq<u8>
    decreases v, 2int,
{
    match v {
        Tree::Section(_) => entries_bytes(v) + seq![2u8],
        Tree::List(items) => if probe(v) == FieldType::List(ListElement::Section) {
            record_chunks(v).flatten() + seq![2u8]
        } else {
            item_chunks(items).flatten() + seq![6u8]
        },
        _ => scalar_token(v),
    }
}

/// The wire bytes of the map entry `k`, `v`: the tag that the probe of `v`
/// implies, the key, and the value.
pub open spec fn entry_bytes(k: Seq<u8>, v: Tree) -> Seq<u8>
    decreases v, 3int,
{
    seq![tag_byte(entry_tag(probe(v)))] + key_token(k) + entry_value_bytes(v)
}

/// The wire bytes of a message whose top-level map is `t`.
pub open spec fn encode_message(t: Tree) -> Seq<u8> {
    entries_bytes(t)
}

/// Whether `t` can stand in value position of a scalar.
pub open spec fn is_scalar(t: Tree) -> bool {
    match t {
        Tree::Absent => true,
        Tree::Text(b) => b.len() <= 65535,
        _ => false,
    }
}

/// Whether the entries of the section `t` can be written: keys of at most
/// 255 bytes, scalars of at most 65535 bytes, and lists whose elements are
/// all scalars or all sections.
pub open spec fn encodable_entries(t: Tree) -> bool
    decreases t, 0int,
{
    match t {
        Tree::Section(es) => forall|i: int|
            0 <= i < es.len() ==> #[trigger] es[i].0.len() <= 255 && encodable_value(es[i].1),
        _ => false,
    }
}

/// Whether `v` can be written as the value of a map entry.
pub open spec fn encodable_value(v: Tree) -> bool
    decreases v, 1int,
{
    match v {
        Tree::Section(_) => encodable_entries(v),
        Tree::List(items) => {
            &&& items.len() <= usize::MAX
            &&& {
                ||| forall|i: int| 0 <= i < items.len() ==> is_scalar(#[trigger] items[i])
                ||| forall|i: int|
                    0 <= i < items.len() ==> #[trigger] items[i] is Section && encodable_entries(
                        items[i],
                    )
            }
        },
        _ => is_scalar(v),
    }
}

/// Whether the entries of the section `t` open at most `n` further levels
/// of maps.
pub open spec fn entries_within(t: Tree, n: nat) -> bool
    decreases t, 0int,
{
    match t {
        Tree::Section(es) => forall|i: int| 0 <= i < es.len() ==> value_within(#[trigger] es[i].1, n),
        _ => true,
    }
}

/// Whether the entry value `v` opens at most `n` levels of maps.
pub open spec fn value_within(v: Tree, n: nat) -> bool
    decreases v, 1int,
{
    match v {
        Tree::Section(_) => n >= 1 && entries_within(v, (n - 1) as nat),
        Tree::List(items) => forall|i: int|
            0 <= i < items.len() ==> (#[trigger] items[i] is Section ==> n >= 1 && entries_within(
                items[i],
                (n - 1) as nat,
            )),
        _ => true,
    }
}

impl FieldType {
    /// Probes `v` without writing anything: its shape for tagging.
    pub fn from(v: &Value) -> (r: FieldType)
        ensures
            r == probe(v.view()),
    {
        match v {
            Value::Section(_) => {
                assert(v.view() is Section);
                FieldType::Section
            },
            Value::List(items) => {
                proof {
                    if items@.len() > 0 {
                        assert(v.view()->List_0[0] == items@[0].view());
                    }
                }
                if items.len() > 0 && matches!(items[0], Value::Section(_)) {
                    FieldType::List(ListElement::Section)
                } else {
                    FieldType::List(ListElement::String)
                }
            },
            _ => FieldType::String,
        }
    }
}

/// Whether `v` is a scalar that can be written.
fn check_scalar(v: &Value) -> (r: bool)
    ensures
        r == is_scalar(v.view()),
{
    match v {
        Value::Absent => true,
        Value::Text(b) => b.len() <= 65535,
        _ => false,
    }
}

/// Whether the section `v` can be written with at most `n` further levels
/// of maps.
pub fn check_entries(v: &Value, n: usize) -> (r: bool)
    ensures
        r == (encodable_entries(v.view()) && entries_within(v.view(), n as nat)),
    decreases v, 0int,
{
    match v {
        Value::Section(es) => {
            let mut i: usize = 0;
            while i < es.len()
                invariant
                    i <= es@.len(),
                    v.view() is Section,
                    *v == Value::Section(*es),
                    forall|j: int|
                        0 <= j < i ==> #[trigger] es@[j].0@.len() <= 255 && encodable_value(
                            es@[j].1.view(),
                        ) && value_within(es@[j].1.view(), n as nat),
                decreases es@.len() - i,
            {
                let (k, x) = &es[i];
                if k.len() > 255 || !check_value(x, n) {
                    proof {
                        let t = v.view()->Section_0;
                        assert(t[i as int] == (k@, x.view()));
                        assert(t[i as int].0.len() > 255 || !encodable_value(t[i as int].1)
                            || !value_within(t[i as int].1, n as nat));
                    }
                    return false;
                }
                i = i + 1;
            }
            proof {
                let t = v.view()->Section_0;
                assert forall|j: int| 0 <= j < t.len() implies #[trigger] t[j].0.len() <= 255
                    && encodable_value(t[j].1) by {
                    assert(t[j] == (es@[j].0@, es@[j].1.view()));
                }
                assert forall|j: int| 0 <= j < t.len() implies value_within(#[trigger] t[j].1, n as nat) by {
                    assert(t[j] == (es@[j].0@, es@[j].1.view()));
                    assert(es@[j].0@.len() <= 255);
                }
            }
            true
        },
        _ => false,
    }
}

/// Whether `v` can be written as an entry value with at most `n` levels of
/// maps.
fn check_value(v: &Value, n: usize) -> (r: bool)
    ensures
        r == (encodable_value(v.view()) && value_within(v.view(), n as nat)),
    decreases v, 1int,
{
    match v {
        Value::Section(_) => n >= 1 && check_entries(v, n - 1),
        Value::List(items) => {
            let ghost t = v.view()->List_0;
            let mut scalars = true;
            let mut sections = true;
            let mut i: usize = 0;
            while i < items.len()
                invariant
                    i <= items@.len(),
                    *v == Value::List(*items),
                    t == v.view()->List_0,
                    t.len() == items@.len(),
                    forall|j: int| 0 <= j < t.len() ==> #[trigger] t[j] == items@[j].view(),
                    scalars == (forall|j: int| 0 <= j < i ==> is_scalar(#[trigger] t[j])),
                    sections == (forall|j: int|
                        0 <= j < i ==> #[trigger] t[j] is Section && encodable_entries(t[j])
                            && value_within(t[j], n as nat)),
                decreases items@.len() - i,
            {
                let x = &items[i];
                if !check_scalar(x) {
                    scalars = false;
                }
                let sec = matches!(x, Value::Section(_)) && n >= 1 && check_entries(x, n - 1);
                if !sec {
                    sections = false;
                }
                proof {
                    assert(t[i as int] == x.view());
                }
                i = i + 1;
            }
            proof {
                if sections {
                    assert forall|j: int| 0 <= j < t.len() implies (#[trigger] t[j] is Section
                        ==> n >= 1 && entries_within(t[j], (n - 1) as nat)) by {
                        assert(t[j] is Section && value_within(t[j], n as nat));
                    }
                }
            }
            scalars || sections
        },
        _ => check_scalar(v),
    }
}

impl Value {
    /// The model of this value.
    pub open spec fn view(&self) -> Tree
        decreases self,
    {
        match self {
            Value::Absent => Tree::Absent,
            Value::Text(b) => Tree::Text(b@),
            Value::Section(es) => Tree::Section(
                Seq::new(
                    es@.len(),
                    |i: int|
                        {
                            if 0 <= i < es@.len() {
                                (es@[i].0@, es@[i].1.view())
                            } else {
                                (Seq::empty(), Tree::Absent)
                            }
                        },
                ),
            ),
            Value::List(vs) => Tree::List(
                Seq::new(
                    vs@.len(),
                    |i: int|
                        {
                            if 0 <= i < vs@.len() {
                                vs@[i].view()
                            } else {
                                Tree::Absent
                            }
                        },
                ),
            ),
        }
    }
}

} // verus!
