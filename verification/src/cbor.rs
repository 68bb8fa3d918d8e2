//! The binary data model of records: a subset of CBOR (RFC 8949) with
//! definite lengths, written with the shortest argument for every head.
use vstd::prelude::*;
use vstd::utf8::*;

verus! {

/// A decoded data item.
#[derive(Debug, PartialEq)]
pub enum Value {
    Integer(i128),
    Bytes(Vec<u8>),
    /// A floating-point item, kept as the raw bits of its encoding.
    Float(u64),
    Text(String),
    Bool(bool),
    Null,
    Tag(u64, Box<Value>),
    Array(Vec<Value>),
    Table(Vec<(Value, Value)>),
}

/// The mathematical form of a `Value`.
pub enum Data {
    Integer(int),
    Bytes(Seq<u8>),
    Float(u64),
    Text(Seq<char>),
    Bool(bool),
    Null,
    Tag(u64, Box<Data>),
    Array(Seq<Data>),
    Table(Seq<(Data, Data)>),
}

pub open spec fn data_of(v: Value) -> Data
    decreases v,
{
    match v {
        Value::Integer(n) => Data::Integer(n as int),
        Value::Bytes(b) => Data::Bytes(b@),
        Value::Float(f) => Data::Float(f),
        Value::Text(t) => Data::Text(t@),
        Value::Bool(b) => Data::Bool(b),
        Value::Null => Data::Null,
        Value::Tag(t, inner) => Data::Tag(t, Box::new(data_of(*inner))),
        Value::Array(items) => Data::Array(data_list(items@)),
        Value::Table(entries) => Data::Table(data_pairs(entries@)),
    }
}

pub open spec fn data_list(items: Seq<Value>) -> Seq<Data>
    decreases items,
{
    if items.len() == 0 {
        Seq::empty()
    } else {
        seq![data_of(items[0])] + data_list(items.drop_first())
    }
}

pub open spec fn data_pairs(items: Seq<(Value, Value)>) -> Seq<(Data, Data)>
    decreases items,
{
    if items.len() == 0 {
        Seq::empty()
    } else {
        seq![(data_of(items[0].0), data_of(items[0].1))] + data_pairs(items.drop_first())
    }
}

impl View for Value {
    type V = Data;

    open spec fn view(&self) -> Data {
        data_of(*self)
    }
}

/// `256` to the power `k`.
pub open spec fn lim(k: nat) -> nat
    decreases k,
{
    if k == 0 {
        1
    } else {
        256 * lim((k - 1) as nat)
    }
}

pub open spec fn u64_lim() -> int {
    0x1_0000_0000_0000_0000
}

/// The low `k` bytes of `n`, most significant first.
pub open spec fn be(n: nat, k: nat) -> Seq<u8>
    decreases k,
{
    if k == 0 {
        Seq::empty()
    } else {
        be(n / 256, (k - 1) as nat).push((n % 256) as u8)
    }
}

/// The number spelled by `s`, most significant byte first.
pub open spec fn from_be(s: Seq<u8>) -> nat
    decreases s.len(),
{
    if s.len() == 0 {
        0
    } else {
        (from_be(s.drop_last()) * 256 + s.last()) as nat
    }
}

/// The head of an item of major type `major` with argument `n`, in its shortest form.
pub open spec fn head(major: u8, n: nat) -> Seq<u8> {
    let m = major * 32;
    if n < 24 {
        seq![(m + n) as u8]
    } else if n < 0x100 {
        seq![(m + 24) as u8] + be(n, 1)
    } else if n < 0x1_0000 {
        seq![(m + 25) as u8] + be(n, 2)
    } else if n < 0x1_0000_0000 {
        seq![(m + 26) as u8] + be(n, 4)
    } else {
        seq![(m + 27) as u8] + be(n, 8)
    }
}

/// Whether every integer, length and tag of `d` fits the CBOR head.
pub open spec fn encodable(d: Data) -> bool
    decreases d,
{
    match d {
        Data::Integer(n) => -u64_lim() <= n < u64_lim(),
        Data::Bytes(b) => b.len() < u64_lim(),
        Data::Text(t) => encode_utf8(t).len() < u64_lim(),
        Data::Tag(_, inner) => encodable(*inner),
        Data::Array(items) => items.len() < u64_lim() && encodable_list(items),
        Data::Table(entries) => entries.len() < u64_lim() && encodable_pairs(entries),
        _ => true,
    }
}

pub open spec fn encodable_list(items: Seq<Data>) -> bool
    decreases items,
{
    items.len() > 0 ==> encodable(items[0]) && encodable_list(items.drop_first())
}

pub open spec fn encodable_pairs(items: Seq<(Data, Data)>) -> bool
    decreases items,
{
    items.len() > 0 ==> encodable(items[0].0) && encodable(items[0].1) && encodable_pairs(
        items.drop_first(),
    )
}

/// The encoding of `d`.
pub open spec fn enc(d: Data) -> Seq<u8>
    decreases d,
{
    match d {
        Data::Integer(n) => if n >= 0 {
            head(0, n as nat)
        } else {
            head(1, (-1 - n) as nat)
        },
        Data::Bytes(b) => head(2, b.len()) + b,
        Data::Float(bits) => seq![0xfbu8] + be(bits as nat, 8),
        Data::Text(t) => head(3, encode_utf8(t).len()) + encode_utf8(t),
        Data::Bool(b) => if b {
            seq![0xf5u8]
        } else {
            seq![0xf4u8]
        },
        Data::Null => seq![0xf6u8],
        Data::Tag(t, inner) => head(6, t as nat) + enc(*inner),
        Data::Array(items) => head(4, items.len()) + enc_list(items),
        Data::Table(entries) => head(5, entries.len()) + enc_pairs(entries),
    }
}

pub open spec fn enc_list(items: Seq<Data>) -> Seq<u8>
    decreases items,
{
    if items.len() == 0 {
        Seq::empty()
    } else {
        enc(items[0]) + enc_list(items.drop_first())
    }
}

pub open spec fn enc_pairs(items: Seq<(Data, Data)>) -> Seq<u8>
    decreases items,
{
    if items.len() == 0 {
        Seq::empty()
    } else {
        enc(items[0].0) + enc(items[0].1) + enc_pairs(items.drop_first())
    }
}

/// The width in bytes of the argument that follows an initial byte with additional information `ai`.
pub open spec fn width(ai: u8) -> nat {
    if ai == 24 {
        1
    } else if ai == 25 {
        2
    } else if ai == 26 {
        4
    } else {
        8
    }
}

/// The head at the start of `s`: major type, additional information, argument and head length.
pub open spec fn dec_head(s: Seq<u8>) -> Option<(u8, u8, nat, nat)> {
    if s.len() == 0 {
        None
    } else {
        let major = s[0] / 32;
        let ai = s[0] % 32;
        if ai < 24 {
            Some((major, ai, ai as nat, 1))
        } else if ai <= 27 {
            let k = width(ai);
            if s.len() < 1 + k {
                None
            } else {
                Some((major, ai, from_be(s.subrange(1, 1 + k as int)), 1 + k))
            }
        } else {
            None
        }
    }
}

/// The first data item of `s` and the number of bytes it takes.
pub open spec fn dec(s: Seq<u8>) -> Option<(Data, nat)>
    decreases s.len(), 0nat,
{
    match dec_head(s) {
        None => None,
        Some((major, ai, arg, h)) => {
            if major == 0 {
                Some((Data::Integer(arg as int), h))
            } else if major == 1 {
                Some((Data::Integer(-1 - arg), h))
            } else if major == 2 || major == 3 {
                if h + arg <= s.len() {
                    let body = s.subrange(h as int, (h + arg) as int);
                    if major == 2 {
                        Some((Data::Bytes(body), h + arg))
                    } else if valid_utf8(body) {
                        Some((Data::Text(decode_utf8(body)), h + arg))
                    } else {
                        None
                    }
                } else {
                    None
                }
            } else if major == 4 {
                match dec_list(s.skip(h as int), arg) {
                    Some((items, k)) => Some((Data::Array(items), h + k)),
                    None => None,
                }
            } else if major == 5 {
                match dec_pairs(s.skip(h as int), arg) {
                    Some((entries, k)) => Some((Data::Table(entries), h + k)),
                    None => None,
                }
            } else if major == 6 {
                match dec(s.skip(h as int)) {
                    Some((inner, k)) => Some((Data::Tag(arg as u64, Box::new(inner)), h + k)),
                    None => None,
                }
            } else if ai == 20 {
                Some((Data::Bool(false), 1))
            } else if ai == 21 {
                Some((Data::Bool(true), 1))
            } else if ai == 22 {
                Some((Data::Null, 1))
            } else if ai >= 25 {
                Some((Data::Float(arg as u64), h))
            } else {
                None
            }
        },
    }
}

/// `n` consecutive items at the start of `s`.
pub open spec fn dec_list(s: Seq<u8>, n: nat) -> Option<(Seq<Data>, nat)>
    decreases s.len(), n + 1,
{
    if n == 0 {
        Some((Seq::empty(), 0))
    } else {
        match dec(s) {
            None => None,
            Some((first, k)) => if k <= s.len() {
                match dec_list(s.skip(k as int), (n - 1) as nat) {
                    None => None,
                    Some((rest, j)) => Some((seq![first] + rest, k + j)),
                }
            } else {
                None
            },
        }
    }
}

/// `n` consecutive key-value pairs at the start of `s`.
pub open spec fn dec_pairs(s: Seq<u8>, n: nat) -> Option<(Seq<(Data, Data)>, nat)>
    decreases s.len(), n + 1,
{
    if n == 0 {
        Some((Seq::empty(), 0))
    } else {
        match dec(s) {
            None => None,
            Some((key, k)) => if k <= s.len() {
                match dec(s.skip(k as int)) {
                    None => None,
                    Some((item, j)) => if k + j <= s.len() {
                        match dec_pairs(s.skip((k + j) as int), (n - 1) as nat) {
                            None => None,
                            Some((rest, m)) => Some((seq![(key, item)] + rest, k + j + m)),
                        }
                    } else {
                        None
                    },
                }
            } else {
                None
            },
        }
    }
}


proof fn lemma_lim()
    ensures
        lim(1) == 0x100,
        lim(2) == 0x1_0000,
        lim(4) == 0x1_0000_0000,
        lim(8) == 0x1_0000_0000_0000_0000,
{
    reveal_with_fuel(lim, 9);
}

proof fn lemma_be(n: nat, k: nat)
    ensures
        be(n, k).len() == k,
        n < lim(k) ==> from_be(be(n, k)) == n,
    decreases k,
{
    if k > 0 {
        lemma_be(n / 256, (k - 1) as nat);
        let s = be(n, k);
        assert(s.drop_last() =~= be(n / 256, (k - 1) as nat));
        if n < lim(k) {
            assert(n / 256 < lim((k - 1) as nat));
            assert(from_be(s) == from_be(be(n / 256, (k - 1) as nat)) * 256 + n % 256);
        }
    }
}

/// A number read from `s` fits in `s.len()` bytes.
proof fn lemma_from_be_bound(s: Seq<u8>)
    ensures
        from_be(s) < lim(s.len()),
    decreases s.len(),
{
    if s.len() > 0 {
        lemma_from_be_bound(s.drop_last());
        assert(from_be(s) <= (lim((s.len() - 1) as nat) - 1) * 256 + 255);
    }
}

proof fn lemma_dec_head(major: u8, n: nat, rest: Seq<u8>)
    requires
        major < 8,
        n < u64_lim(),
    ensures
        dec_head(head(major, n) + rest) == Some(
            (major, ((head(major, n)[0]) % 32) as u8, n, head(major, n).len()),
        ),
        head(major, n).len() >= 1,
{
    lemma_lim();
    let s = head(major, n) + rest;
    if n < 24 {
    } else if n < 0x100 {
        lemma_be(n, 1);
        assert(s.subrange(1, 2) =~= be(n, 1));
    } else if n < 0x1_0000 {
        lemma_be(n, 2);
        assert(s.subrange(1, 3) =~= be(n, 2));
    } else if n < 0x1_0000_0000 {
        lemma_be(n, 4);
        assert(s.subrange(1, 5) =~= be(n, 4));
    } else {
        lemma_be(n, 8);
        assert(s.subrange(1, 9) =~= be(n, 8));
    }
}

/// Decoding an encoding gives back the item and the length of its encoding,
/// whatever bytes follow it.
#[verifier::spinoff_prover]
#[verifier::rlimit(50)]
pub proof fn lemma_dec_enc(d: Data, rest: Seq<u8>)
    requires
        encodable(d),
    ensures
        dec(enc(d) + rest) == Some((d, enc(d).len())),
    decreases d,
{
    let s = enc(d) + rest;
    match d {
        Data::Integer(n) => {
            if n >= 0 {
                lemma_dec_head(0, n as nat, rest);
            } else {
                lemma_dec_head(1, (-1 - n) as nat, rest);
            }
        },
        Data::Bytes(b) => {
            lemma_dec_head(2, b.len(), b + rest);
            assert(s =~= head(2, b.len()) + (b + rest));
            let h = head(2, b.len()).len();
            assert(s.subrange(h as int, (h + b.len()) as int) =~= b);
        },
        Data::Text(t) => {
            let u = encode_utf8(t);
            lemma_dec_head(3, u.len(), u + rest);
            assert(s =~= head(3, u.len()) + (u + rest));
            let h = head(3, u.len()).len();
            assert(s.subrange(h as int, (h + u.len()) as int) =~= u);
            encode_utf8_valid_utf8(t);
            encode_utf8_decode_utf8(t);
        },
        Data::Float(bits) => {
            lemma_lim();
            lemma_be(bits as nat, 8);
            assert(s.subrange(1, 9) =~= be(bits as nat, 8));
        },
        Data::Bool(b) => {},
        Data::Null => {},
        Data::Tag(t, inner) => {
            let e = enc(*inner);
            lemma_dec_head(6, t as nat, e + rest);
            assert(s =~= head(6, t as nat) + (e + rest));
            let h = head(6, t as nat).len();
            assert(s.skip(h as int) =~= e + rest);
            lemma_dec_enc(*inner, rest);
        },
        Data::Array(items) => {
            let e = enc_list(items);
            lemma_dec_head(4, items.len(), e + rest);
            assert(s =~= head(4, items.len()) + (e + rest));
            let h = head(4, items.len()).len();
            assert(s.skip(h as int) =~= e + rest);
            lemma_dec_enc_list(items, rest);
        },
        Data::Table(entries) => {
            let e = enc_pairs(entries);
            lemma_dec_head(5, entries.len(), e + rest);
            assert(s =~= head(5, entries.len()) + (e + rest));
            let h = head(5, entries.len()).len();
            assert(s.skip(h as int) =~= e + rest);
            lemma_dec_enc_pairs(entries, rest);
        },
    }
}

pub proof fn lemma_dec_enc_list(items: Seq<Data>, rest: Seq<u8>)
    requires
        encodable_list(items),
    ensures
        dec_list(enc_list(items) + rest, items.len()) == Some((items, enc_list(items).len())),
    decreases items,
{
    if items.len() > 0 {
        let tail = items.drop_first();
        let s = enc_list(items) + rest;
        let first = enc(items[0]);
        assert(s =~= first + (enc_list(tail) + rest));
        lemma_dec_enc(items[0], enc_list(tail) + rest);
        assert(s.skip(first.len() as int) =~= enc_list(tail) + rest);
        lemma_dec_enc_list(tail, rest);
        assert(seq![items[0]] + tail =~= items);
    }
}

pub proof fn lemma_dec_enc_pairs(items: Seq<(Data, Data)>, rest: Seq<u8>)
    requires
        encodable_pairs(items),
    ensures
        dec_pairs(enc_pairs(items) + rest, items.len()) == Some((items, enc_pairs(items).len())),
    decreases items,
{
    if items.len() > 0 {
        let tail = items.drop_first();
        let s = enc_pairs(items) + rest;
        let key = enc(items[0].0);
        let item = enc(items[0].1);
        assert(s =~= key + (item + enc_pairs(tail) + rest));
        lemma_dec_enc(items[0].0, item + enc_pairs(tail) + rest);
        assert(s.skip(key.len() as int) =~= item + (enc_pairs(tail) + rest));
        lemma_dec_enc(items[0].1, enc_pairs(tail) + rest);
        assert(s.skip((key.len() + item.len()) as int) =~= enc_pairs(tail) + rest);
        lemma_dec_enc_pairs(tail, rest);
        assert(seq![items[0]] + tail =~= items);
    }
}


pub proof fn lemma_data_list(items: Seq<Value>)
    ensures
        data_list(items).len() == items.len(),
        forall|i: int| 0 <= i < items.len() ==> #[trigger] data_list(items)[i] == data_of(items[i]),
    decreases items.len(),
{
    if items.len() > 0 {
        lemma_data_list(items.drop_first());
        assert forall|i: int| 0 <= i < items.len() implies #[trigger] data_list(items)[i] == data_of(
            items[i],
        ) by {
            if i > 0 {
                assert(data_list(items)[i] == data_list(items.drop_first())[i - 1]);
            }
        }
    }
}

pub proof fn lemma_data_pairs(items: Seq<(Value, Value)>)
    ensures
        data_pairs(items).len() == items.len(),
        forall|i: int|
            0 <= i < items.len() ==> #[trigger] data_pairs(items)[i] == (
                data_of(items[i].0),
                data_of(items[i].1),
            ),
    decreases items.len(),
{
    if items.len() > 0 {
        lemma_data_pairs(items.drop_first());
        assert forall|i: int| 0 <= i < items.len() implies #[trigger] data_pairs(items)[i] == (
            data_of(items[i].0),
            data_of(items[i].1),
        ) by {
            if i > 0 {
                assert(data_pairs(items)[i] == data_pairs(items.drop_first())[i - 1]);
            }
        }
    }
}

pub proof fn lemma_data_list_push(items: Seq<Value>, v: Value)
    ensures
        data_list(items.push(v)) == data_list(items).push(data_of(v)),
{
    lemma_data_list(items);
    lemma_data_list(items.push(v));
    assert(data_list(items.push(v)) =~= data_list(items).push(data_of(v)));
}

pub proof fn lemma_data_pairs_push(items: Seq<(Value, Value)>, k: Value, v: Value)
    ensures
        data_pairs(items.push((k, v))) == data_pairs(items).push((data_of(k), data_of(v))),
{
    lemma_data_pairs(items);
    lemma_data_pairs(items.push((k, v)));
    assert(data_pairs(items.push((k, v))) =~= data_pairs(items).push((data_of(k), data_of(v))));
}

proof fn lemma_enc_list_push(items: Seq<Data>, d: Data)
    ensures
        enc_list(items.push(d)) == enc_list(items) + enc(d),
    decreases items.len(),
{
    if items.len() == 0 {
        assert(items.push(d).drop_first() =~= Seq::<Data>::empty());
        assert(enc_list(items.push(d)) == enc(d) + enc_list(Seq::<Data>::empty()));
        assert(enc_list(items.push(d)) =~= enc(d));
    } else {
        lemma_enc_list_push(items.drop_first(), d);
        assert(items.push(d).drop_first() =~= items.drop_first().push(d));
        assert(enc_list(items.push(d)) =~= enc_list(items) + enc(d));
    }
}

proof fn lemma_enc_pairs_push(items: Seq<(Data, Data)>, d: (Data, Data))
    ensures
        enc_pairs(items.push(d)) == enc_pairs(items) + enc(d.0) + enc(d.1),
    decreases items.len(),
{
    if items.len() == 0 {
        assert(items.push(d).drop_first() =~= Seq::<(Data, Data)>::empty());
        assert(enc_pairs(items.push(d)) == enc(d.0) + enc(d.1) + enc_pairs(
            Seq::<(Data, Data)>::empty(),
        ));
        assert(enc_pairs(items.push(d)) =~= enc(d.0) + enc(d.1));
    } else {
        lemma_enc_pairs_push(items.drop_first(), d);
        assert(items.push(d).drop_first() =~= items.drop_first().push(d));
        assert(enc_pairs(items.push(d)) =~= enc_pairs(items) + enc(d.0) + enc(d.1));
    }
}

pub proof fn lemma_encodable_list(items: Seq<Data>)
    ensures
        encodable_list(items) <==> forall|i: int| 0 <= i < items.len() ==> encodable(#[trigger] items[i]),
    decreases items.len(),
{
    if items.len() > 0 {
        lemma_encodable_list(items.drop_first());
        if forall|i: int| 0 <= i < items.len() ==> encodable(#[trigger] items[i]) {
            assert forall|i: int| 0 <= i < items.drop_first().len() implies encodable(
                #[trigger] items.drop_first()[i],
            ) by {
                assert(items.drop_first()[i] == items[i + 1]);
            }
        }
        if encodable_list(items) {
            assert forall|i: int| 0 <= i < items.len() implies encodable(#[trigger] items[i]) by {
                if i > 0 {
                    assert(items[i] == items.drop_first()[i - 1]);
                }
            }
        }
    }
}

pub open spec fn encodable_pair(p: (Data, Data)) -> bool {
    encodable(p.0) && encodable(p.1)
}

pub proof fn lemma_encodable_pairs(items: Seq<(Data, Data)>)
    ensures
        encodable_pairs(items) <==> forall|i: int|
            0 <= i < items.len() ==> encodable_pair(#[trigger] items[i]),
    decreases items.len(),
{
    if items.len() > 0 {
        lemma_encodable_pairs(items.drop_first());
        if forall|i: int| 0 <= i < items.len() ==> encodable_pair(#[trigger] items[i]) {
            assert forall|i: int| 0 <= i < items.drop_first().len() implies encodable_pair(
                #[trigger] items.drop_first()[i],
            ) by {
                assert(items.drop_first()[i] == items[i + 1]);
            }
            assert(encodable_pair(items[0]));
        }
        if encodable_pairs(items) {
            assert forall|i: int| 0 <= i < items.len() implies encodable_pair(#[trigger] items[i]) by {
                if i > 0 {
                    assert(items[i] == items.drop_first()[i - 1]);
                }
            }
        }
    }
}

fn push_be(out: &mut Vec<u8>, n: u64, k: usize)
    requires
        k <= 8,
    ensures
        final(out)@ == old(out)@ + be(n as nat, k as nat),
    decreases k,
{
    if k > 0 {
        push_be(out, n / 256, k - 1);
        out.push((n % 256) as u8);
        assert(final(out)@ =~= old(out)@ + be(n as nat, k as nat));
    }
}

fn push_head(out: &mut Vec<u8>, major: u8, n: u64)
    requires
        major < 8,
    ensures
        final(out)@ == old(out)@ + head(major, n as nat),
{
    let m = major * 32;
    if n < 24 {
        out.push(m + n as u8);
        assert(final(out)@ =~= old(out)@ + head(major, n as nat));
    } else {
        let (ai, k): (u8, usize) = if n < 0x100 {
            (24, 1)
        } else if n < 0x1_0000 {
            (25, 2)
        } else if n < 0x1_0000_0000 {
            (26, 4)
        } else {
            (27, 8)
        };
        out.push(m + ai);
        let ghost mid = out@;
        push_be(out, n, k);
        assert(final(out)@ =~= old(out)@ + head(major, n as nat));
    }
}

fn push_bytes(out: &mut Vec<u8>, bytes: &[u8])
    ensures
        final(out)@ == old(out)@ + bytes@,
{
    let mut i: usize = 0;
    while i < bytes.len()
        invariant
            i <= bytes.len(),
            out@ == old(out)@ + bytes@.take(i as int),
        decreases bytes.len() - i,
    {
        out.push(bytes[i]);
        i = i + 1;
        assert(out@ =~= old(out)@ + bytes@.take(i as int));
    }
    assert(bytes@.take(i as int) =~= bytes@);
}

/// Appends the encoding of `v` to `out`, if every integer and length of `v` fits a head.
pub fn write_value(v: &Value, out: &mut Vec<u8>) -> (ok: bool)
    ensures
        ok == encodable(v@),
        ok ==> final(out)@ == old(out)@ + enc(v@),
    decreases v,
{
    match v {
        Value::Integer(n) => {
            let n = *n;
            if n >= 0 {
                if n >= 0x1_0000_0000_0000_0000 {
                    return false;
                }
                push_head(out, 0, n as u64);
            } else {
                let m = -1 - n;
                if m >= 0x1_0000_0000_0000_0000 {
                    return false;
                }
                push_head(out, 1, m as u64);
            }
            true
        },
        Value::Bytes(b) => {
            let len = b.len();
            if len as u128 >= 0x1_0000_0000_0000_0000 {
                return false;
            }
            push_head(out, 2, len as u64);
            push_bytes(out, b.as_slice());
            assert(final(out)@ =~= old(out)@ + enc(v@));
            true
        },
        Value::Float(bits) => {
            out.push(0xfb);
            push_be(out, *bits, 8);
            assert(final(out)@ =~= old(out)@ + enc(v@));
            true
        },
        Value::Text(t) => {
            let b = t.as_str().as_bytes();
            let len = b.len();
            if len as u128 >= 0x1_0000_0000_0000_0000 {
                return false;
            }
            push_head(out, 3, len as u64);
            push_bytes(out, b);
            assert(final(out)@ =~= old(out)@ + enc(v@));
            true
        },
        Value::Bool(b) => {
            out.push(if *b { 0xf5 } else { 0xf4 });
            assert(final(out)@ =~= old(out)@ + enc(v@));
            true
        },
        Value::Null => {
            out.push(0xf6);
            assert(final(out)@ =~= old(out)@ + enc(v@));
            true
        },
        Value::Tag(t, inner) => {
            push_head(out, 6, *t);
            let ghost mid = out@;
            let ok = write_value(inner, out);
            if ok {
                assert(final(out)@ =~= old(out)@ + enc(v@));
            }
            ok
        },
        Value::Array(items) => {
            let len = items.len();
            if len as u128 >= 0x1_0000_0000_0000_0000 {
                return false;
            }
            push_head(out, 4, len as u64);
            let ghost start = out@;
            let ghost ds = data_list(items@);
            proof {
                lemma_data_list(items@);
                lemma_encodable_list(ds);
                assert(decreases_to!(*v => *items));
            }
            let mut i: usize = 0;
            while i < len
                invariant
                    len == items.len(),
                    i <= len,
                    ds == data_list(items@),
                    ds.len() == len,
                    forall|j: int| 0 <= j < len ==> #[trigger] ds[j] == data_of(items@[j]),
                    forall|j: int| 0 <= j < i ==> encodable(#[trigger] ds[j]),
                    out@ == start + enc_list(ds.take(i as int)),
                    decreases_to!(*v => *items),
                    encodable_list(ds) <==> forall|j: int| 0 <= j < ds.len() ==> encodable(#[trigger] ds[j]),
                    v@ == Data::Array(ds),
                decreases len - i,
            {
                proof {
                    assert(decreases_to!(*items => items@[i as int]));
                }
                if !write_value(&items[i], out) {
                    assert(!encodable(ds[i as int]));
                    assert(!encodable_list(ds));
                    assert(v@ == Data::Array(ds));
                    return false;
                }
                proof {
                    assert(ds.take(i + 1) =~= ds.take(i as int).push(ds[i as int]));
                    lemma_enc_list_push(ds.take(i as int), ds[i as int]);
                }
                i = i + 1;
            }
            assert(ds.take(len as int) =~= ds);
            assert(final(out)@ =~= old(out)@ + enc(v@));
            true
        },
        Value::Table(entries) => {
            let len = entries.len();
            if len as u128 >= 0x1_0000_0000_0000_0000 {
                return false;
            }
            push_head(out, 5, len as u64);
            let ghost start = out@;
            let ghost ds = data_pairs(entries@);
            proof {
                lemma_data_pairs(entries@);
                lemma_encodable_pairs(ds);
                assert(decreases_to!(*v => *entries));
            }
            let mut i: usize = 0;
            while i < len
                invariant
                    len == entries.len(),
                    i <= len,
                    ds == data_pairs(entries@),
                    ds.len() == len,
                    forall|j: int|
                        0 <= j < len ==> #[trigger] ds[j] == (
                            data_of(entries@[j].0),
                            data_of(entries@[j].1),
                        ),
                    forall|j: int| 0 <= j < i ==> encodable_pair(#[trigger] ds[j]),
                    out@ == start + enc_pairs(ds.take(i as int)),
                    decreases_to!(*v => *entries),
                    encodable_pairs(ds) <==> forall|j: int| 0 <= j < ds.len() ==> encodable_pair(#[trigger] ds[j]),
                    v@ == Data::Table(ds),
                decreases len - i,
            {
                proof {
                    assert(decreases_to!(*entries => entries@[i as int]));
                    assert(decreases_to!(entries@[i as int] => entries@[i as int].0));
                    assert(decreases_to!(entries@[i as int] => entries@[i as int].1));
                }
                if !write_value(&entries[i].0, out) {
                    assert(!encodable_pair(ds[i as int]));
                    assert(!encodable_pairs(ds));
                    assert(v@ == Data::Table(ds));
                    return false;
                }
                if !write_value(&entries[i].1, out) {
                    assert(!encodable_pair(ds[i as int]));
                    assert(!encodable_pairs(ds));
                    assert(v@ == Data::Table(ds));
                    return false;
                }
                proof {
                    assert(ds.take(i + 1) =~= ds.take(i as int).push(ds[i as int]));
                    lemma_enc_pairs_push(ds.take(i as int), ds[i as int]);
                }
                i = i + 1;
            }
            assert(ds.take(len as int) =~= ds);
            assert(final(out)@ =~= old(out)@ + enc(v@));
            true
        },
    }
}

/// The encoding of `v`, if every integer and length of `v` fits a head.
pub fn encode(v: &Value) -> (r: Option<Vec<u8>>)
    ensures
        r is Some <==> encodable(v@),
        r matches Some(b) ==> b@ == enc(v@),
{
    let mut out: Vec<u8> = Vec::new();
    if write_value(v, &mut out) {
        assert(out@ =~= enc(v@));
        Some(out)
    } else {
        None
    }
}


/// A decoded item takes at least one byte and no more than there are.
pub proof fn lemma_dec_bounds(s: Seq<u8>)
    ensures
        dec(s) matches Some((_, k)) ==> 1 <= k <= s.len(),
    decreases s.len(), 0nat,
{
    match dec_head(s) {
        None => {},
        Some((major, ai, arg, h)) => {
            if major == 4 {
                lemma_dec_list_bounds(s.skip(h as int), arg);
            } else if major == 5 {
                lemma_dec_pairs_bounds(s.skip(h as int), arg);
            } else if major == 6 {
                lemma_dec_bounds(s.skip(h as int));
            }
        },
    }
}

pub proof fn lemma_dec_list_bounds(s: Seq<u8>, n: nat)
    ensures
        dec_list(s, n) matches Some((items, k)) ==> k <= s.len() && items.len() == n,
    decreases s.len(), n + 1,
{
    if n > 0 {
        lemma_dec_bounds(s);
        match dec(s) {
            None => {},
            Some((first, k)) => {
                if k <= s.len() {
                    lemma_dec_list_bounds(s.skip(k as int), (n - 1) as nat);
                }
            },
        }
    }
}

pub proof fn lemma_dec_pairs_bounds(s: Seq<u8>, n: nat)
    ensures
        dec_pairs(s, n) matches Some((items, k)) ==> k <= s.len() && items.len() == n,
    decreases s.len(), n + 1,
{
    if n > 0 {
        lemma_dec_bounds(s);
        match dec(s) {
            None => {},
            Some((key, k)) => {
                if k <= s.len() {
                    lemma_dec_bounds(s.skip(k as int));
                    match dec(s.skip(k as int)) {
                        None => {},
                        Some((item, j)) => {
                            if k + j <= s.len() {
                                lemma_dec_pairs_bounds(s.skip((k + j) as int), (n - 1) as nat);
                            }
                        },
                    }
                }
            },
        }
    }
}

pub open spec fn glue<T>(xs: Seq<T>, k: nat, r: Option<(Seq<T>, nat)>) -> Option<(Seq<T>, nat)> {
    match r {
        None => None,
        Some((ys, j)) => Some((xs + ys, k + j)),
    }
}

/// `String::from_utf8`: the text that `bytes` spell in UTF-8, if they are valid UTF-8.
#[verifier::external_body]
pub(crate) fn utf8_text(bytes: &[u8]) -> (r: Option<String>)
    ensures
        r is Some <==> valid_utf8(bytes@),
        r matches Some(t) ==> t@ == decode_utf8(bytes@),
{
    String::from_utf8(bytes.to_vec()).ok()
}

fn read_head(bytes: &[u8], pos: usize) -> (r: Option<(u8, u8, u64, usize)>)
    requires
        pos <= bytes.len(),
    ensures
        match r {
            Some((m, ai, arg, h)) => dec_head(bytes@.skip(pos as int)) == Some(
                (m, ai, arg as nat, h as nat),
            ) && h <= 9,
            None => dec_head(bytes@.skip(pos as int)) is None,
        },
{
    let ghost s = bytes@.skip(pos as int);
    if pos >= bytes.len() {
        return None;
    }
    let b = bytes[pos];
    let major = b / 32;
    let ai = b % 32;
    assert(s[0] == b);
    if ai < 24 {
        return Some((major, ai, ai as u64, 1));
    }
    if ai > 27 {
        return None;
    }
    let k: usize = if ai == 24 {
        1
    } else if ai == 25 {
        2
    } else if ai == 26 {
        4
    } else {
        8
    };
    if bytes.len() - pos < 1 + k {
        return None;
    }
    let mut acc: u64 = 0;
    let mut i: usize = 0;
    proof {
        lemma_lim();
    }
    while i < k
        invariant
            k <= 8,
            pos + 1 + k <= bytes.len(),
            i <= k,
            s == bytes@.skip(pos as int),
            acc as nat == from_be(s.subrange(1, 1 + i as int)),
            lim(8) == 0x1_0000_0000_0000_0000,
        decreases k - i,
    {
        let ghost sub = s.subrange(1, 1 + i as int);
        proof {
            lemma_from_be_bound(sub);
            lemma_lim_mono(i as nat, 7);
        }
        let next = bytes[pos + 1 + i];
        assert(s.subrange(1, 2 + i as int).drop_last() =~= sub);
        assert(s.subrange(1, 2 + i as int).last() == next);
        acc = acc * 256 + next as u64;
        i = i + 1;
    }
    Some((major, ai, acc, 1 + k))
}

proof fn lemma_lim_mono(a: nat, b: nat)
    requires
        a <= b,
    ensures
        lim(a) <= lim(b),
    decreases b,
{
    if a < b {
        lemma_lim_mono(a, (b - 1) as nat);
    }
}

/// The first data item of `bytes` from `pos` on, and the number of bytes it takes.
pub fn read_value(bytes: &[u8], pos: usize) -> (r: Option<(Value, usize)>)
    requires
        pos <= bytes.len(),
    ensures
        match r {
            Some((v, k)) => dec(bytes@.skip(pos as int)) == Some((v@, k as nat)),
            None => dec(bytes@.skip(pos as int)) is None,
        },
    decreases bytes.len() - pos, 0nat,
{
    let ghost s = bytes@.skip(pos as int);
    let (major, ai, arg, h) = match read_head(bytes, pos) {
        None => {
            return None;
        },
        Some(found) => found,
    };
    proof {
        lemma_dec_bounds(s);
    }
    if major == 0 {
        return Some((Value::Integer(arg as i128), h));
    }
    if major == 1 {
        return Some((Value::Integer(-1 - arg as i128), h));
    }
    if major == 2 || major == 3 {
        if arg as u128 > (bytes.len() - pos - h) as u128 {
            return None;
        }
        let end = pos + h + arg as usize;
        let mut body: Vec<u8> = Vec::new();
        let mut i = pos + h;
        while i < end
            invariant
                pos + h <= i <= end <= bytes.len(),
                body@ == bytes@.subrange(pos + h, i as int),
            decreases end - i,
        {
            body.push(bytes[i]);
            i = i + 1;
        }
        assert(body@ =~= s.subrange(h as int, (h + arg) as int));
        if major == 2 {
            return Some((Value::Bytes(body), h + arg as usize));
        }
        return match utf8_text(body.as_slice()) {
            None => None,
            Some(t) => Some((Value::Text(t), h + arg as usize)),
        };
    }
    if major == 6 {
        assert(s.skip(h as int) =~= bytes@.skip(pos + h));
        return match read_value(bytes, pos + h) {
            None => None,
            Some((inner, k)) => Some((Value::Tag(arg, Box::new(inner)), h + k)),
        };
    }
    if major == 7 {
        if ai == 20 {
            return Some((Value::Bool(false), 1));
        } else if ai == 21 {
            return Some((Value::Bool(true), 1));
        } else if ai == 22 {
            return Some((Value::Null, 1));
        } else if ai >= 25 {
            return Some((Value::Float(arg), h));
        } else {
            return None;
        }
    }
    let start = pos + h;
    assert(s.skip(h as int) =~= bytes@.skip(start as int));
    let mut q = start;
    let mut i: u64 = 0;
    if major == 4 {
        let mut items: Vec<Value> = Vec::new();
        proof {
            assert(data_list(items@) =~= Seq::<Data>::empty());
            assert(Seq::<Data>::empty() + Seq::<Data>::empty() =~= Seq::<Data>::empty());
        }
        while i < arg
            invariant
                start <= q <= bytes.len(),
                pos < start,
                i <= arg,
                dec_list(bytes@.skip(start as int), arg as nat) is None ==> dec(
                    bytes@.skip(pos as int),
                ) is None,
                dec_list(bytes@.skip(start as int), arg as nat) == glue(
                    data_list(items@),
                    (q - start) as nat,
                    dec_list(bytes@.skip(q as int), (arg - i) as nat),
                ),
            decreases bytes.len() - q,
        {
            let ghost t = bytes@.skip(q as int);
            proof {
                lemma_dec_bounds(t);
            }
            match read_value(bytes, q) {
                None => {
                    assert(dec_list(t, (arg - i) as nat) is None);
                    return None;
                },
                Some((x, k)) => {
                    proof {
                        assert(t.skip(k as int) =~= bytes@.skip(q + k));
                        lemma_data_list_push(items@, x);
                        let xs = data_list(items@);
                        match dec_list(bytes@.skip(q + k), (arg - i - 1) as nat) {
                            None => {},
                            Some((ys, j)) => {
                                assert(xs + (seq![x@] + ys) =~= xs.push(x@) + ys);
                            },
                        }
                    }
                    items.push(x);
                    q = q + k;
                    i = i + 1;
                },
            }
        }
        proof {
            assert(data_list(items@) + Seq::<Data>::empty() =~= data_list(items@));
        }
        Some((Value::Array(items), h + (q - start)))
    } else {
        let mut entries: Vec<(Value, Value)> = Vec::new();
        proof {
            assert(data_pairs(entries@) =~= Seq::<(Data, Data)>::empty());
            assert(Seq::<(Data, Data)>::empty() + Seq::<(Data, Data)>::empty() =~= Seq::<
                (Data, Data),
            >::empty());
        }
        while i < arg
            invariant
                start <= q <= bytes.len(),
                pos < start,
                i <= arg,
                dec_pairs(bytes@.skip(start as int), arg as nat) is None ==> dec(
                    bytes@.skip(pos as int),
                ) is None,
                dec_pairs(bytes@.skip(start as int), arg as nat) == glue(
                    data_pairs(entries@),
                    (q - start) as nat,
                    dec_pairs(bytes@.skip(q as int), (arg - i) as nat),
                ),
            decreases bytes.len() - q,
        {
            let ghost t = bytes@.skip(q as int);
            proof {
                lemma_dec_bounds(t);
            }
            let (key, k) = match read_value(bytes, q) {
                None => {
                    assert(dec_pairs(t, (arg - i) as nat) is None);
                    return None;
                },
                Some(found) => found,
            };
            let ghost t2 = bytes@.skip(q + k);
            proof {
                assert(t.skip(k as int) =~= t2);
                lemma_dec_bounds(t2);
            }
            let (item, j) = match read_value(bytes, q + k) {
                None => {
                    assert(dec_pairs(t, (arg - i) as nat) is None);
                    return None;
                },
                Some(found) => found,
            };
            proof {
                assert(t.skip((k + j) as int) =~= bytes@.skip(q + k + j));
                lemma_data_pairs_push(entries@, key, item);
                let xs = data_pairs(entries@);
                match dec_pairs(bytes@.skip(q + k + j), (arg - i - 1) as nat) {
                    None => {},
                    Some((ys, m)) => {
                        assert(xs + (seq![(key@, item@)] + ys) =~= xs.push((key@, item@)) + ys);
                    },
                }
            }
            entries.push((key, item));
            q = q + k + j;
            i = i + 1;
        }
        proof {
            assert(data_pairs(entries@) + Seq::<(Data, Data)>::empty() =~= data_pairs(entries@));
        }
        Some((Value::Table(entries), h + (q - start)))
    }
}

/// The first data item that `bytes` hold; bytes after it are not read.
pub fn decode(bytes: &[u8]) -> (r: Option<Value>)
    ensures
        match r {
            Some(v) => dec(bytes@) matches Some((d, _)) && d == v@,
            None => dec(bytes@) is None,
        },
{
    assert(bytes@.skip(0) =~= bytes@);
    match read_value(bytes, 0) {
        None => None,
        Some((v, _)) => Some(v),
    }
}

} // verus!
