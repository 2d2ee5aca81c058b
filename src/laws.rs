//! Properties of the codec as a whole, stated over the models of values and
//! bytes and proved from the definitions of encoding and parsing.
use vstd::prelude::*;
use vstd::utf8::{valid_utf8, valid_utf8_concat};

use crate::de::{
    entries_at, entry_at, head_at, items_at, key_at, lemma_prepend_assoc, parse_message, prepend,
    token_text, value_at, Parsed,
};
use crate::read::{key_len_at, value_len_at};
use crate::ser::{absent_token, lemma_decimal_len, width, State};
use crate::value::{
    decimal, encodable_entries, encodable_value, encode_message, entries_bytes, entry_bytes,
    entry_chunks, entry_tag, entry_value_bytes, is_scalar, item_chunks, key_token, probe,
    record_chunks, scalar_token, value_token, FieldType, ListElement, Tree,
};
use crate::tag_byte;

verus! {

/// The form in which a value comes back from the wire when no target shape
/// says more: an absent value is empty text, and a list of sections is a
/// section whose entries are named by their index.
pub open spec fn normalize(v: Tree) -> Tree
    decreases v,
{
    match v {
        Tree::Absent => Tree::Text(Seq::empty()),
        Tree::Text(b) => Tree::Text(b),
        Tree::Section(es) => Tree::Section(
            Seq::new(
                es.len(),
                |i: int|
                    if 0 <= i < es.len() {
                        (es[i].0, normalize(es[i].1))
                    } else {
                        (Seq::empty(), Tree::Absent)
                    },
            ),
        ),
        Tree::List(items) => if probe(v) == FieldType::List(ListElement::Section) {
            Tree::Section(
                Seq::new(
                    items.len(),
                    |i: int|
                        if 0 <= i < items.len() {
                            (decimal(i as nat), normalize(items[i]))
                        } else {
                            (Seq::empty(), Tree::Absent)
                        },
                ),
            )
        } else {
            Tree::List(
                Seq::new(
                    items.len(),
                    |i: int|
                        if 0 <= i < items.len() {
                            normalize(items[i])
                        } else {
                            Tree::Absent
                        },
                ),
            )
        },
    }
}

/// Whether every key and text in the entries of `t` is valid UTF-8.
pub open spec fn utf8_entries(t: Tree) -> bool
    decreases t, 0int,
{
    match t {
        Tree::Section(es) => forall|i: int|
            0 <= i < es.len() ==> valid_utf8(#[trigger] es[i].0) && utf8_value(es[i].1),
        _ => true,
    }
}

/// Whether every key and text in `v` is valid UTF-8.
pub open spec fn utf8_value(v: Tree) -> bool
    decreases v, 1int,
{
    match v {
        Tree::Text(b) => valid_utf8(b),
        Tree::Section(_) => utf8_entries(v),
        Tree::List(items) => forall|i: int|
            0 <= i < items.len() ==> (#[trigger] items[i] is Text ==> valid_utf8(
                items[i]->Text_0,
            )) && (items[i] is Section ==> utf8_entries(items[i])),
        Tree::Absent => true,
    }
}

proof fn lemma_split(data: Seq<u8>, off: int, a: Seq<u8>, b: Seq<u8>)
    requires
        0 <= off,
        off + a.len() + b.len() <= data.len(),
        data.subrange(off, off + a.len() + b.len()) == a + b,
    ensures
        data.subrange(off, off + a.len()) == a,
        data.subrange(off + a.len(), off + a.len() + b.len()) == b,
{
    assert forall|i: int| 0 <= i < a.len() implies data.subrange(off, off + a.len())[i] == a[i] by {
        assert(data.subrange(off, off + a.len() + b.len())[i] == (a + b)[i]);
    }
    assert forall|i: int| 0 <= i < b.len() implies data.subrange(
        off + a.len(),
        off + a.len() + b.len(),
    )[i] == b[i] by {
        let j = a.len() + i;
        assert(data.subrange(off, off + a.len() + b.len())[j] == (a + b)[j]);
        assert(data.subrange(off, off + a.len() + b.len())[j] == data[off + j]);
        assert((a + b)[j] == b[i]);
        assert(data.subrange(off + a.len(), off + a.len() + b.len())[i] == data[off + a.len()
            + i]);
    }
    assert(data.subrange(off, off + a.len()) =~= a);
    assert(data.subrange(off + a.len(), off + a.len() + b.len()) =~= b);
}

proof fn lemma_key(data: Seq<u8>, off: int, k: Seq<u8>)
    requires
        0 <= off,
        off + 1 + k.len() <= data.len(),
        k.len() <= 255,
        valid_utf8(k),
        data.subrange(off, off + 1 + k.len()) == key_token(k),
    ensures
        key_at(data, off) == Parsed::Done(k, off + 1 + k.len()),
{
    lemma_split(data, off, seq![k.len() as u8], k);
    assert(data[off] == data.subrange(off, off + 1)[0]);
    assert(key_len_at(data, off) == k.len());
    assert(token_text(data, off, 1) =~= k);
}

proof fn lemma_value(data: Seq<u8>, off: int, b: Seq<u8>)
    requires
        0 <= off,
        off + 2 + b.len() <= data.len(),
        b.len() <= 65535,
        valid_utf8(b),
        data.subrange(off, off + 2 + b.len()) == value_token(b),
    ensures
        value_at(data, off) == Parsed::Done(b, off + 2 + b.len()),
{
    let hi = (b.len() / 256) as u8;
    let lo = (b.len() % 256) as u8;
    lemma_split(data, off, seq![hi, lo], b);
    assert(data[off] == data.subrange(off, off + 2)[0]);
    assert(data[off + 1] == data.subrange(off, off + 2)[1]);
    assert(hi as int * 256 + lo as int == b.len()) by {
        let n = b.len() as int;
        assert(n / 256 < 256);
        assert((n / 256) * 256 + n % 256 == n) by (nonlinear_arith);
    }
    assert(value_len_at(data, off) == b.len());
    assert(token_text(data, off, 2) =~= b);
}

proof fn lemma_empty_utf8()
    ensures
        valid_utf8(Seq::<u8>::empty()),
{
    reveal_with_fuel(valid_utf8, 2);
}

proof fn lemma_decimal_utf8(n: nat)
    ensures
        valid_utf8(decimal(n)),
    decreases n,
{
    lemma_empty_utf8();
    let d = seq![(n % 10 + 48) as u8];
    assert(valid_utf8(d)) by {
        reveal_with_fuel(valid_utf8, 2);
        assert(d.subrange(1, 1) =~= Seq::<u8>::empty());
    }
    if n >= 10 {
        lemma_decimal_utf8(n / 10);
        valid_utf8_concat(decimal(n / 10), d);
        assert(decimal(n) =~= decimal(n / 10) + d);
    } else {
        assert(decimal(n) =~= d);
    }
}

/// The flattened suffix of chunks from `j` is chunk `j` and the rest.
proof fn lemma_flatten_from(c: Seq<Seq<u8>>, j: int)
    requires
        0 <= j < c.len(),
    ensures
        c.subrange(j, c.len() as int).flatten() == c[j] + c.subrange(j + 1, c.len() as int).flatten(),
{
    let s = c.subrange(j, c.len() as int);
    assert(s.first() == c[j]);
    assert(s.drop_first() =~= c.subrange(j + 1, c.len() as int));
}

/// A value of scalar items parses back, each item normalized.
proof fn lemma_items_from(items: Seq<Tree>, j: int, data: Seq<u8>, off: int)
    requires
        0 <= j <= items.len(),
        0 <= off,
        forall|i: int| 0 <= i < items.len() ==> is_scalar(#[trigger] items[i]),
        forall|i: int|
            0 <= i < items.len() ==> (#[trigger] items[i] is Text ==> valid_utf8(items[i]->Text_0)),
        ({
            let b = item_chunks(items).subrange(j, items.len() as int).flatten();
            &&& off + b.len() < data.len()
            &&& data.subrange(off, off + b.len()) == b
            &&& data[off + b.len()] == 6
        }),
    ensures
        items_at(data, off) == Parsed::Done(
            Seq::new(items.len(), |i: int| normalize(items[i])).subrange(j, items.len() as int),
            off + item_chunks(items).subrange(j, items.len() as int).flatten().len() + 1,
        ),
    decreases items.len() - j,
{
    let c = item_chunks(items);
    let n = items.len() as int;
    let norm = Seq::new(items.len(), |i: int| normalize(items[i]));
    if j == n {
        assert(c.subrange(j, n) =~= Seq::<Seq<u8>>::empty());
        assert(norm.subrange(j, n) =~= Seq::<Tree>::empty());
    } else {
        lemma_flatten_from(c, j);
        let rest = c.subrange(j + 1, n).flatten();
        let x = items[j];
        let tok = scalar_token(x);
        assert(c[j] == seq![5u8] + tok);
        lemma_split(data, off, c[j], rest);
        lemma_split(data, off, seq![5u8], tok);
        assert(data[off] == data.subrange(off, off + 1)[0]);
        let o1 = off + 1 + tok.len();
        match x {
            Tree::Text(b) => {
                lemma_value(data, off + 1, b);
                assert(normalize(x) == Tree::Text(b));
            },
            _ => {
                lemma_empty_utf8();
                lemma_value(data, off + 1, Seq::empty());
                assert(value_token(Seq::<u8>::empty()) =~= seq![0u8, 0u8]);
                assert(normalize(x) == Tree::Text(Seq::empty()));
            },
        }
        assert(data.subrange(o1, o1 + rest.len()) == rest);
        lemma_items_from(items, j + 1, data, o1);
        assert(norm.subrange(j, n) =~= seq![normalize(x)] + norm.subrange(j + 1, n));
    }
}

/// One step of parsing entries: an entry that parses, then the rest.
proof fn lemma_entries_step(data: Seq<u8>, off: int, nested: bool, e: (Seq<u8>, Tree), o2: int)
    requires
        0 <= off < data.len(),
        data[off] == 1 || data[off] == 3 || data[off] == 4,
        entry_at(data, off) == Parsed::Done(e, o2),
        off < o2 <= data.len(),
    ensures
        entries_at(data, off, nested) == prepend(seq![e], entries_at(data, o2, nested)),
{
}

/// The entries of a section from index `j` on parse back, normalized.
proof fn lemma_entries_from(t: Tree, j: int, data: Seq<u8>, off: int, nested: bool)
    requires
        t is Section,
        encodable_entries(t),
        utf8_entries(t),
        0 <= j <= t->Section_0.len(),
        0 <= off,
        ({
            let b = entry_chunks(t).subrange(j, t->Section_0.len() as int).flatten();
            &&& off + b.len() <= data.len()
            &&& data.subrange(off, off + b.len()) == b
            &&& nested ==> off + b.len() < data.len() && data[off + b.len()] == 2
            &&& !nested ==> off + b.len() == data.len()
        }),
    ensures
        entries_at(data, off, nested) == Parsed::Done(
            normalize(t)->Section_0.subrange(j, t->Section_0.len() as int),
            off + entry_chunks(t).subrange(j, t->Section_0.len() as int).flatten().len() + (
            if nested {
                1int
            } else {
                0int
            }),
        ),
    decreases t, 0int, t->Section_0.len() - j,
{
    let es = t->Section_0;
    let n = es.len() as int;
    let c = entry_chunks(t);
    let norm = normalize(t)->Section_0;
    if j == n {
        assert(c.subrange(j, n) =~= Seq::<Seq<u8>>::empty());
        assert(norm.subrange(j, n) =~= Seq::<(Seq<u8>, Tree)>::empty());
    } else {
        lemma_flatten_from(c, j);
        let rest = c.subrange(j + 1, n).flatten();
        let (k, v) = es[j];
        assert(c[j] == entry_bytes(k, v));
        assert(k.len() <= 255 && encodable_value(v));
        assert(valid_utf8(k) && utf8_value(v));
        lemma_split(data, off, c[j], rest);
        lemma_entry(k, v, data, off);
        let o2 = off + c[j].len();
        assert(data.subrange(o2, o2 + rest.len()) == rest);
        assert(data[off] == data.subrange(off, off + c[j].len())[0]);
        assert(data[off] == 1 || data[off] == 3 || data[off] == 4);
        lemma_entries_step(data, off, nested, (k, normalize(v)), o2);
        lemma_entries_from(t, j + 1, data, o2, nested);
        assert(norm[j] == (k, normalize(v)));
        assert(norm.subrange(j, n) =~= seq![(k, normalize(v))] + norm.subrange(j + 1, n));
    }
}

/// The elements of a list of sections from index `j` on parse back as the
/// entries of a section named by index.
proof fn lemma_records_from(v: Tree, j: int, data: Seq<u8>, off: int)
    requires
        v is List,
        probe(v) == FieldType::List(ListElement::Section),
        encodable_value(v),
        utf8_value(v),
        0 <= j <= v->List_0.len(),
        0 <= off,
        ({
            let b = record_chunks(v).subrange(j, v->List_0.len() as int).flatten();
            &&& off + b.len() < data.len()
            &&& data.subrange(off, off + b.len()) == b
            &&& data[off + b.len()] == 2
        }),
    ensures
        entries_at(data, off, true) == Parsed::Done(
            normalize(v)->Section_0.subrange(j, v->List_0.len() as int),
            off + record_chunks(v).subrange(j, v->List_0.len() as int).flatten().len() + 1,
        ),
    decreases v, 0int, v->List_0.len() - j,
{
    let items = v->List_0;
    let n = items.len() as int;
    let c = record_chunks(v);
    let norm = normalize(v)->Section_0;
    if j == n {
        assert(c.subrange(j, n) =~= Seq::<Seq<u8>>::empty());
        assert(norm.subrange(j, n) =~= Seq::<(Seq<u8>, Tree)>::empty());
    } else {
        lemma_flatten_from(c, j);
        let rest = c.subrange(j + 1, n).flatten();
        let x = items[j];
        assert(items[0] is Section);
        assert(x is Section && encodable_entries(x));
        assert(utf8_entries(x));
        let name = decimal(j as nat);
        lemma_decimal_len(j as nat);
        lemma_decimal_utf8(j as nat);
        let body = entries_bytes(x);
        assert(c[j] == seq![1u8] + key_token(name) + body + seq![2u8]);
        lemma_split(data, off, c[j], rest);
        assert(c[j] =~= seq![1u8] + (key_token(name) + (body + seq![2u8])));
        lemma_split(data, off, seq![1u8], key_token(name) + (body + seq![2u8]));
        lemma_split(data, off + 1, key_token(name), body + seq![2u8]);
        let o1 = off + 1 + key_token(name).len();
        lemma_split(data, o1, body, seq![2u8]);
        assert(data[off] == data.subrange(off, off + 1)[0]);
        assert(data[o1 + body.len()] == data.subrange(o1 + body.len(), o1 + body.len() + 1)[0]);
        lemma_key(data, off + 1, name);
        assert(entry_chunks(x).subrange(0, x->Section_0.len() as int) =~= entry_chunks(x));
        lemma_entries_from(x, 0, data, o1, true);
        assert(normalize(x)->Section_0.subrange(0, x->Section_0.len() as int) =~= normalize(
            x,
        )->Section_0);
        assert(head_at(data, o1, 1) == Parsed::Done(normalize(x), o1 + body.len() + 1));
        let o2 = off + c[j].len();
        assert(entry_at(data, off) == Parsed::Done((name, normalize(x)), o2));
        assert(data.subrange(o2, o2 + rest.len()) == rest);
        lemma_records_from(v, j + 1, data, o2);
        assert(norm[j] == (name, normalize(x)));
        assert(norm.subrange(j, n) =~= seq![(name, normalize(x))] + norm.subrange(j + 1, n));
    }
}

/// One entry parses back, its value normalized.
proof fn lemma_entry(k: Seq<u8>, v: Tree, data: Seq<u8>, off: int)
    requires
        k.len() <= 255,
        valid_utf8(k),
        encodable_value(v),
        utf8_value(v),
        0 <= off,
        off + entry_bytes(k, v).len() <= data.len(),
        data.subrange(off, off + entry_bytes(k, v).len()) == entry_bytes(k, v),
    ensures
        entry_at(data, off) == Parsed::Done((k, normalize(v)), off + entry_bytes(k, v).len()),
    decreases v, 1int, 0int,
{
    let tag = seq![tag_byte(entry_tag(probe(v)))];
    let kt = key_token(k);
    let vb = entry_value_bytes(v);
    assert(entry_bytes(k, v) =~= tag + (kt + vb));
    lemma_split(data, off, tag, kt + vb);
    lemma_split(data, off + 1, kt, vb);
    assert(data[off] == data.subrange(off, off + 1)[0]);
    lemma_key(data, off + 1, k);
    let o1 = off + 1 + kt.len();
    match v {
        Tree::Section(es) => {
            let body = entries_bytes(v);
            assert(vb == body + seq![2u8]);
            lemma_split(data, o1, body, seq![2u8]);
            assert(data[o1 + body.len()] == data.subrange(o1 + body.len(), o1 + body.len() + 1)[0]);
            assert(entry_chunks(v).subrange(0, es.len() as int) =~= entry_chunks(v));
            lemma_entries_from(v, 0, data, o1, true);
            assert(normalize(v)->Section_0.subrange(0, es.len() as int) =~= normalize(
                v,
            )->Section_0);
        },
        Tree::List(items) => {
            if probe(v) == FieldType::List(ListElement::Section) {
                let body = record_chunks(v).flatten();
                assert(vb == body + seq![2u8]);
                lemma_split(data, o1, body, seq![2u8]);
                assert(data[o1 + body.len()] == data.subrange(o1 + body.len(), o1 + body.len()
                    + 1)[0]);
                assert(record_chunks(v).subrange(0, items.len() as int) =~= record_chunks(v));
                lemma_records_from(v, 0, data, o1);
                assert(normalize(v)->Section_0.subrange(0, items.len() as int) =~= normalize(
                    v,
                )->Section_0);
            } else {
                let body = item_chunks(items).flatten();
                assert(vb == body + seq![6u8]);
                lemma_split(data, o1, body, seq![6u8]);
                assert(data[o1 + body.len()] == data.subrange(o1 + body.len(), o1 + body.len()
                    + 1)[0]);
                assert forall|i: int| 0 <= i < items.len() implies is_scalar(#[trigger] items[i]) by {
                    if !is_scalar(items[i]) {
                        assert(items[i] is Section);
                        assert(items[0] is Section);
                    }
                }
                assert(item_chunks(items).subrange(0, items.len() as int) =~= item_chunks(items));
                lemma_items_from(items, 0, data, o1);
                let norm = Seq::new(items.len(), |i: int| normalize(items[i]));
                assert(norm.subrange(0, items.len() as int) =~= normalize(v)->List_0);
            }
        },
        Tree::Text(b) => {
            lemma_value(data, o1, b);
        },
        Tree::Absent => {
            lemma_empty_utf8();
            assert(value_token(Seq::<u8>::empty()) =~= seq![0u8, 0u8]);
            lemma_value(data, o1, Seq::empty());
        },
    }
}

/// Round trip: encoding a map and parsing the bytes back gives the map in
/// normal form. Absent values come back as empty text and lists of sections
/// as sections named by index; all else comes back as it was.
pub proof fn lemma_round_trip(t: Tree)
    requires
        t is Section,
        encodable_entries(t),
        utf8_entries(t),
    ensures
        parse_message(encode_message(t)) == Parsed::Done(
            normalize(t)->Section_0,
            encode_message(t).len() as int,
        ),
{
    let data = encode_message(t);
    let n = t->Section_0.len() as int;
    assert(entry_chunks(t).subrange(0, n) =~= entry_chunks(t));
    assert(data.subrange(0, data.len() as int) =~= data);
    lemma_entries_from(t, 0, data, 0, false);
    assert(normalize(t)->Section_0.subrange(0, n) =~= normalize(t)->Section_0);
}

/// Whether the entries of `t` hold no absent value and no list of sections.
pub open spec fn plain_entries(t: Tree) -> bool
    decreases t, 0int,
{
    match t {
        Tree::Section(es) => forall|i: int| 0 <= i < es.len() ==> plain_value(#[trigger] es[i].1),
        _ => false,
    }
}

/// Whether `v` holds no absent value and no list of sections.
pub open spec fn plain_value(v: Tree) -> bool
    decreases v, 1int,
{
    match v {
        Tree::Absent => false,
        Tree::Text(_) => true,
        Tree::Section(_) => plain_entries(v),
        Tree::List(items) => forall|i: int| 0 <= i < items.len() ==> #[trigger] items[i] is Text,
    }
}

proof fn lemma_normalize_plain(v: Tree)
    requires
        plain_value(v),
    ensures
        normalize(v) == v,
    decreases v,
{
    match v {
        Tree::Section(es) => {
            assert forall|i: int| 0 <= i < es.len() implies normalize(es[i].1) == es[i].1 by {
                assert(plain_value(es[i].1));
                lemma_normalize_plain(es[i].1);
            }
            assert(normalize(v)->Section_0 =~= es);
        },
        Tree::List(items) => {
            if items.len() > 0 {
                assert(items[0] is Text);
            }
            assert forall|i: int| 0 <= i < items.len() implies normalize(items[i]) == items[i] by {
                assert(items[i] is Text);
            }
            assert(normalize(v)->List_0 =~= items);
        },
        _ => {},
    }
}

/// Round trip without loss: a map with no absent value and no list of
/// sections parses back exactly as it was encoded.
pub proof fn lemma_round_trip_plain(t: Tree)
    requires
        t is Section,
        encodable_entries(t),
        utf8_entries(t),
        plain_entries(t),
    ensures
        parse_message(encode_message(t)) == Parsed::Done(
            t->Section_0,
            encode_message(t).len() as int,
        ),
{
    lemma_round_trip(t);
    lemma_normalize_plain(t);
}

/// Classification and writing agree: the tag that opens an entry is the
/// one that probing its value implies, so a second probe of the same value
/// names the tag that was written.
pub proof fn lemma_tag_follows_probe(k: Seq<u8>, v: Tree)
    ensures
        entry_bytes(k, v)[0] == tag_byte(entry_tag(probe(v))),
{
}

/// The absent value is a zero length and nothing else: one zero byte where
/// a key goes, two where a value goes. As a map entry it is a key/value pair
/// whose value has length zero.
pub proof fn lemma_absent_sentinel(s: State, k: Seq<u8>)
    ensures
        width(s) == 1 ==> absent_token(s) == seq![0u8],
        width(s) == 2 ==> absent_token(s) == seq![0u8, 0u8],
        entry_bytes(k, Tree::Absent) == seq![3u8] + key_token(k) + seq![0u8, 0u8],
{
    assert(entry_bytes(k, Tree::Absent) =~= seq![3u8] + key_token(k) + seq![0u8, 0u8]);
}

/// A cut inside `a + b`: the part of `a` is `a`'s prefix, or all of `a`
/// followed by a prefix of `b`.
proof fn lemma_prefix_split(data: Seq<u8>, off: int, a: Seq<u8>, b: Seq<u8>)
    requires
        0 <= off <= data.len(),
        data.len() < off + a.len() + b.len(),
        data.subrange(off, data.len() as int) == (a + b).take(data.len() - off),
    ensures
        data.len() < off + a.len() ==> data.subrange(off, data.len() as int) == a.take(
            data.len() - off,
        ),
        data.len() >= off + a.len() ==> data.subrange(off, off + a.len()) == a && data.subrange(
            off + a.len(),
            data.len() as int,
        ) == b.take(data.len() - off - a.len()),
{
    let len = data.len() as int;
    let p = data.subrange(off, len);
    assert forall|i: int| 0 <= i < len - off implies #[trigger] data[off + i] == (a + b)[i] by {
        assert(p[i] == data[off + i]);
    }
    if len < off + a.len() {
        assert(p =~= a.take(len - off));
    } else {
        assert(data.subrange(off, off + a.len()) =~= a);
        assert forall|i: int| 0 <= i < len - off - a.len() implies #[trigger] data.subrange(
            off + a.len(),
            len,
        )[i] == b.take(len - off - a.len())[i] by {
            assert(data[off + (a.len() + i)] == (a + b)[a.len() + i]);
        }
        assert(data.subrange(off + a.len(), len) =~= b.take(len - off - a.len()));
    }
}

/// A key cut short parses as running out of input.
proof fn lemma_short_key(data: Seq<u8>, off: int, k: Seq<u8>)
    requires
        0 <= off <= data.len(),
        data.len() < off + 1 + k.len(),
        k.len() <= 255,
        data.subrange(off, data.len() as int) == key_token(k).take(data.len() - off),
    ensures
        key_at(data, off) is Short,
{
    if off < data.len() {
        assert(data[off] == data.subrange(off, data.len() as int)[0]);
        assert(key_len_at(data, off) == k.len());
    }
}

/// A value cut short parses as running out of input.
proof fn lemma_short_value(data: Seq<u8>, off: int, x: Tree)
    requires
        0 <= off <= data.len(),
        is_scalar(x),
        data.len() < off + scalar_token(x).len(),
        data.subrange(off, data.len() as int) == scalar_token(x).take(data.len() - off),
    ensures
        value_at(data, off) is Short,
{
    if off + 2 <= data.len() {
        let p = data.subrange(off, data.len() as int);
        assert(data[off] == p[0] && data[off + 1] == p[1]);
        if let Tree::Text(b) = x {
            let hi = (b.len() / 256) as u8;
            let lo = (b.len() % 256) as u8;
            assert(p[0] == hi && p[1] == lo);
            assert(hi as int * 256 + lo as int == b.len()) by {
                let n = b.len() as int;
                assert(n / 256 < 256);
                assert((n / 256) * 256 + n % 256 == n) by (nonlinear_arith);
            }
        }
    }
}

/// Scalar list items cut short, before the `ListEnd` is whole, parse as
/// running out of input.
proof fn lemma_short_items_from(items: Seq<Tree>, j: int, data: Seq<u8>, off: int)
    requires
        0 <= j <= items.len(),
        0 <= off <= data.len(),
        forall|i: int| 0 <= i < items.len() ==> is_scalar(#[trigger] items[i]),
        forall|i: int|
            0 <= i < items.len() ==> (#[trigger] items[i] is Text ==> valid_utf8(items[i]->Text_0)),
        ({
            let b = item_chunks(items).subrange(j, items.len() as int).flatten() + seq![6u8];
            &&& data.len() < off + b.len()
            &&& data.subrange(off, data.len() as int) == b.take(data.len() - off)
        }),
    ensures
        items_at(data, off) is Short,
    decreases items.len() - j,
{
    let c = item_chunks(items);
    let n = items.len() as int;
    let len = data.len() as int;
    if off < len {
        if j == n {
            assert(c.subrange(j, n) =~= Seq::<Seq<u8>>::empty());
        } else {
            lemma_flatten_from(c, j);
            let rest = c.subrange(j + 1, n).flatten() + seq![6u8];
            assert(c.subrange(j, n).flatten() + seq![6u8] =~= c[j] + rest);
            lemma_prefix_split(data, off, c[j], rest);
            let x = items[j];
            let tok = scalar_token(x);
            assert(c[j] == seq![5u8] + tok);
            assert(data[off] == data.subrange(off, len)[0]);
            if len < off + c[j].len() {
                lemma_prefix_split(data, off, seq![5u8], tok);
                lemma_short_value(data, off + 1, x);
            } else {
                lemma_split(data, off, seq![5u8], tok);
                match x {
                    Tree::Text(b) => {
                        lemma_value(data, off + 1, b);
                    },
                    _ => {
                        lemma_empty_utf8();
                        assert(value_token(Seq::<u8>::empty()) =~= seq![0u8, 0u8]);
                        lemma_value(data, off + 1, Seq::empty());
                    },
                }
                lemma_short_items_from(items, j + 1, data, off + c[j].len());
            }
        }
    }
}

/// A section's entries from index `j` on, cut short before the closing
/// `SectionEnd` is whole, parse as running out of input.
proof fn lemma_short_entries_from(t: Tree, j: int, data: Seq<u8>, off: int)
    requires
        t is Section,
        encodable_entries(t),
        utf8_entries(t),
        0 <= j <= t->Section_0.len(),
        0 <= off <= data.len(),
        ({
            let b = entry_chunks(t).subrange(j, t->Section_0.len() as int).flatten() + seq![2u8];
            &&& data.len() < off + b.len()
            &&& data.subrange(off, data.len() as int) == b.take(data.len() - off)
        }),
    ensures
        entries_at(data, off, true) is Short,
    decreases t, 0int, t->Section_0.len() - j,
{
    let es = t->Section_0;
    let c = entry_chunks(t);
    let n = es.len() as int;
    let len = data.len() as int;
    if off < len {
        if j == n {
            assert(c.subrange(j, n) =~= Seq::<Seq<u8>>::empty());
        } else {
            lemma_flatten_from(c, j);
            let rest = c.subrange(j + 1, n).flatten() + seq![2u8];
            assert(c.subrange(j, n).flatten() + seq![2u8] =~= c[j] + rest);
            lemma_prefix_split(data, off, c[j], rest);
            let (k, v) = es[j];
            assert(c[j] == entry_bytes(k, v));
            assert(k.len() <= 255 && encodable_value(v));
            assert(valid_utf8(k) && utf8_value(v));
            assert(data[off] == data.subrange(off, len)[0]);
            assert(c[j][0] == 1 || c[j][0] == 3 || c[j][0] == 4);
            if len < off + c[j].len() {
                lemma_short_entry(k, v, data, off);
            } else {
                lemma_entry(k, v, data, off);
                lemma_short_entries_from(t, j + 1, data, off + c[j].len());
            }
        }
    }
}

/// The elements of a list of sections from index `j` on, cut short before
/// the list's closing `SectionEnd` is whole, parse as running out of input.
proof fn lemma_short_records_from(v: Tree, j: int, data: Seq<u8>, off: int)
    requires
        v is List,
        probe(v) == FieldType::List(ListElement::Section),
        encodable_value(v),
        utf8_value(v),
        0 <= j <= v->List_0.len(),
        0 <= off <= data.len(),
        ({
            let b = record_chunks(v).subrange(j, v->List_0.len() as int).flatten() + seq![2u8];
            &&& data.len() < off + b.len()
            &&& data.subrange(off, data.len() as int) == b.take(data.len() - off)
        }),
    ensures
        entries_at(data, off, true) is Short,
    decreases v, 0int, v->List_0.len() - j,
{
    let items = v->List_0;
    let c = record_chunks(v);
    let n = items.len() as int;
    let len = data.len() as int;
    if off < len {
        if j == n {
            assert(c.subrange(j, n) =~= Seq::<Seq<u8>>::empty());
        } else {
            lemma_flatten_from(c, j);
            let rest = c.subrange(j + 1, n).flatten() + seq![2u8];
            assert(c.subrange(j, n).flatten() + seq![2u8] =~= c[j] + rest);
            lemma_prefix_split(data, off, c[j], rest);
            let x = items[j];
            assert(items[0] is Section);
            assert(x is Section && encodable_entries(x));
            assert(utf8_entries(x));
            let name = decimal(j as nat);
            lemma_decimal_len(j as nat);
            lemma_decimal_utf8(j as nat);
            assert(c[j] == entry_bytes(name, x)) by {
                assert(entry_value_bytes(x) == entries_bytes(x) + seq![2u8]);
                assert(c[j] =~= entry_bytes(name, x));
            }
            assert(data[off] == data.subrange(off, len)[0]);
            if len < off + c[j].len() {
                lemma_short_entry(name, x, data, off);
            } else {
                lemma_entry(name, x, data, off);
                lemma_short_records_from(v, j + 1, data, off + c[j].len());
            }
        }
    }
}

/// An entry cut short after its tag parses as running out of input.
#[verifier::rlimit(40)]
proof fn lemma_short_entry(k: Seq<u8>, v: Tree, data: Seq<u8>, off: int)
    requires
        k.len() <= 255,
        valid_utf8(k),
        encodable_value(v),
        utf8_value(v),
        0 <= off < data.len(),
        data.len() < off + entry_bytes(k, v).len(),
        data.subrange(off, data.len() as int) == entry_bytes(k, v).take(data.len() - off),
    ensures
        entry_at(data, off) is Short,
    decreases v, 1int, 0int,
{
    let len = data.len() as int;
    let tag = seq![tag_byte(entry_tag(probe(v)))];
    let kt = key_token(k);
    let vb = entry_value_bytes(v);
    assert(entry_bytes(k, v) =~= tag + (kt + vb));
    lemma_prefix_split(data, off, tag, kt + vb);
    lemma_prefix_split(data, off + 1, kt, vb);
    assert(data[off] == data.subrange(off, off + 1)[0]);
    let o1 = off + 1 + kt.len();
    if len < o1 {
        lemma_short_key(data, off + 1, k);
    } else {
        lemma_key(data, off + 1, k);
        match v {
            Tree::Section(es) => {
                let body = entries_bytes(v);
                assert(entry_chunks(v).subrange(0, es.len() as int) =~= entry_chunks(v));
                lemma_short_entries_from(v, 0, data, o1);
            },
            Tree::List(items) => {
                if probe(v) == FieldType::List(ListElement::Section) {
                    assert(record_chunks(v).subrange(0, items.len() as int) =~= record_chunks(v));
                    lemma_short_records_from(v, 0, data, o1);
                } else {
                    assert forall|i: int| 0 <= i < items.len() implies is_scalar(
                        #[trigger] items[i],
                    ) by {
                        if !is_scalar(items[i]) {
                            assert(items[i] is Section);
                            assert(items[0] is Section);
                        }
                    }
                    assert(item_chunks(items).subrange(0, items.len() as int) =~= item_chunks(
                        items,
                    ));
                    lemma_short_items_from(items, 0, data, o1);
                }
            },
            _ => {
                lemma_short_value(data, o1, v);
            },
        }
    }
}

/// The top-level entries from index `j` on, cut short: the input runs out,
/// or the cut falls between two entries and the entries before it parse.
proof fn lemma_cut_top_from(t: Tree, j: int, data: Seq<u8>, off: int)
    requires
        t is Section,
        encodable_entries(t),
        utf8_entries(t),
        0 <= j <= t->Section_0.len(),
        0 <= off <= data.len(),
        ({
            let b = entry_chunks(t).subrange(j, t->Section_0.len() as int).flatten();
            &&& data.len() < off + b.len()
            &&& data.subrange(off, data.len() as int) == b.take(data.len() - off)
        }),
    ensures
        ({
            let p = entries_at(data, off, false);
            let norm = normalize(t)->Section_0;
            ||| p is Short
            ||| p matches Parsed::Done(es, o) && o == data.len() && j + es.len()
                <= norm.len() && es == norm.subrange(j, j + es.len())
        }),
    decreases t->Section_0.len() - j,
{
    let es = t->Section_0;
    let c = entry_chunks(t);
    let n = es.len() as int;
    let len = data.len() as int;
    let norm = normalize(t)->Section_0;
    if off == len {
        assert(norm.subrange(j, j) =~= Seq::<(Seq<u8>, Tree)>::empty());
    } else {
        if j == n {
            assert(c.subrange(j, n) =~= Seq::<Seq<u8>>::empty());
        } else {
            lemma_flatten_from(c, j);
            let rest = c.subrange(j + 1, n).flatten();
            lemma_prefix_split(data, off, c[j], rest);
            let (k, v) = es[j];
            assert(c[j] == entry_bytes(k, v));
            assert(k.len() <= 255 && encodable_value(v));
            assert(valid_utf8(k) && utf8_value(v));
            assert(data[off] == data.subrange(off, len)[0]);
            assert(c[j][0] == 1 || c[j][0] == 3 || c[j][0] == 4);
            if len < off + c[j].len() {
                lemma_short_entry(k, v, data, off);
            } else {
                lemma_entry(k, v, data, off);
                let o2 = off + c[j].len();
                lemma_cut_top_from(t, j + 1, data, o2);
                assert(norm[j] == (k, normalize(v)));
                match entries_at(data, o2, false) {
                    Parsed::Done(more, o) => {
                        assert(seq![(k, normalize(v))] + more =~= norm.subrange(
                            j,
                            j + 1 + more.len(),
                        ));
                    },
                    _ => {},
                }
            }
        }
    }
}

/// Truncation: a message cut short never parses as malformed or as a wrong
/// value. The input runs out, unless the cut falls between two top-level
/// entries; then what parses is the entries before the cut, as written.
pub proof fn lemma_truncation(t: Tree, cut: int)
    requires
        t is Section,
        encodable_entries(t),
        utf8_entries(t),
        0 <= cut < encode_message(t).len(),
    ensures
        ({
            let p = parse_message(encode_message(t).take(cut));
            let norm = normalize(t)->Section_0;
            ||| p is Short
            ||| p matches Parsed::Done(es, o) && o == cut && es.len() <= norm.len() && es
                == norm.take(es.len() as int)
        }),
{
    let m = encode_message(t);
    let data = m.take(cut);
    let n = t->Section_0.len() as int;
    assert(entry_chunks(t).subrange(0, n) =~= entry_chunks(t));
    assert(data.subrange(0, cut) =~= m.take(cut));
    lemma_cut_top_from(t, 0, data, 0);
    match parse_message(data) {
        Parsed::Done(es, o) => {
            assert(normalize(t)->Section_0.subrange(0, es.len() as int) =~= normalize(
                t,
            )->Section_0.take(es.len() as int));
        },
        _ => {},
    }
}

/// The entries of a section from index `j` on, followed by anything, parse
/// as those entries, normalized, before whatever the rest parses to.
proof fn lemma_entries_prefix(t: Tree, j: int, data: Seq<u8>, off: int, nested: bool)
    requires
        t is Section,
        encodable_entries(t),
        utf8_entries(t),
        0 <= j <= t->Section_0.len(),
        0 <= off,
        ({
            let b = entry_chunks(t).subrange(j, t->Section_0.len() as int).flatten();
            &&& off + b.len() <= data.len()
            &&& data.subrange(off, off + b.len()) == b
        }),
    ensures
        entries_at(data, off, nested) == prepend(
            normalize(t)->Section_0.subrange(j, t->Section_0.len() as int),
            entries_at(
                data,
                off + entry_chunks(t).subrange(j, t->Section_0.len() as int).flatten().len(),
                nested,
            ),
        ),
    decreases t->Section_0.len() - j,
{
    let es = t->Section_0;
    let n = es.len() as int;
    let c = entry_chunks(t);
    let norm = normalize(t)->Section_0;
    if j == n {
        assert(c.subrange(j, n) =~= Seq::<Seq<u8>>::empty());
        assert(norm.subrange(j, n) =~= Seq::<(Seq<u8>, Tree)>::empty());
        match entries_at(data, off, nested) {
            Parsed::Done(r, o) => {
                assert(Seq::<(Seq<u8>, Tree)>::empty() + r =~= r);
            },
            _ => {},
        }
    } else {
        lemma_flatten_from(c, j);
        let rest = c.subrange(j + 1, n).flatten();
        let (k, v) = es[j];
        assert(c[j] == entry_bytes(k, v));
        assert(k.len() <= 255 && encodable_value(v));
        assert(valid_utf8(k) && utf8_value(v));
        lemma_split(data, off, c[j], rest);
        lemma_entry(k, v, data, off);
        let o2 = off + c[j].len();
        assert(data[off] == data.subrange(off, off + c[j].len())[0]);
        assert(data[off] == 1 || data[off] == 3 || data[off] == 4);
        lemma_entries_step(data, off, nested, (k, normalize(v)), o2);
        lemma_entries_prefix(t, j + 1, data, o2, nested);
        assert(norm[j] == (k, normalize(v)));
        assert(norm.subrange(j, n) =~= seq![(k, normalize(v))] + norm.subrange(j + 1, n));
        lemma_prepend_assoc(
            seq![(k, normalize(v))],
            norm.subrange(j + 1, n),
            entries_at(data, o2 + rest.len(), nested),
        );
    }
}

/// An unmatched start: a message followed by a section that is opened and
/// never closed parses as running out of input, never as a shorter message.
pub proof fn lemma_unclosed_section(t: Tree, k: Seq<u8>, u: Tree)
    requires
        t is Section,
        encodable_entries(t),
        utf8_entries(t),
        u is Section,
        encodable_entries(u),
        utf8_entries(u),
        k.len() <= 255,
        valid_utf8(k),
    ensures
        parse_message(encode_message(t) + seq![1u8] + key_token(k) + entries_bytes(u))
            is Short,
{
    let m = encode_message(t);
    let open = seq![1u8] + key_token(k) + entries_bytes(u);
    let data = m + open;
    let n = t->Section_0.len() as int;
    assert(entry_chunks(t).subrange(0, n) =~= entry_chunks(t));
    assert(data.subrange(0, m.len() as int) =~= m);
    lemma_entries_prefix(t, 0, data, 0, false);
    assert(entry_bytes(k, u) =~= open + seq![2u8]);
    assert(data.subrange(m.len() as int, data.len() as int) =~= entry_bytes(k, u).take(
        open.len() as int,
    ));
    assert(data[m.len() as int] == 1);
    lemma_short_entry(k, u, data, m.len() as int);
    assert(entries_at(data, m.len() as int, false) is Short);
    assert(encode_message(t) + seq![1u8] + key_token(k) + entries_bytes(u) =~= data);
}

} // verus!
