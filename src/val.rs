use vstd::prelude::*;
use vstd::utf8::*;
use vstd::string::*;

use crate::error::DbError;
use crate::typ::{Typ, typ_tag};

verus! {

broadcast use {encode_utf8_valid_utf8, encode_utf8_decode_utf8};

/// A typed value.
#[derive(Debug)]
pub enum Val {
    String(String),
    Number(i64),
    Boolean(bool),
}

/// The mathematical content of a value.
pub enum Datum {
    Str(Seq<char>),
    Num(i64),
    Bool(bool),
}

impl View for Val {
    type V = Datum;

    open spec fn view(&self) -> Datum {
        match self {
            Val::String(s) => Datum::Str(s@),
            Val::Number(n) => Datum::Num(*n),
            Val::Boolean(b) => Datum::Bool(*b),
        }
    }
}

impl PartialEq for Val {
    fn eq(&self, o: &Val) -> (r: bool) {
        match (self, o) {
            (Val::String(a), Val::String(b)) => *a == *b,
            (Val::Number(a), Val::Number(b)) => *a == *b,
            (Val::Boolean(a), Val::Boolean(b)) => *a == *b,
            _ => false,
        }
    }
}

impl vstd::std_specs::cmp::PartialEqSpecImpl for Val {
    open spec fn obeys_eq_spec() -> bool {
        true
    }

    open spec fn eq_spec(&self, o: &Val) -> bool {
        self@ == o@
    }
}

impl Eq for Val {
}

impl Clone for Val {
    fn clone(&self) -> (r: Val)
        ensures
            r@ == self@,
    {
        self.duplicate()
    }
}

impl Datum {
    pub open spec fn typ(self) -> Typ {
        match self {
            Datum::Str(_) => Typ::String,
            Datum::Num(_) => Typ::Number,
            Datum::Bool(_) => Typ::Boolean,
        }
    }

    /// Whether the value fits the binary encoding (a string has at most 255 bytes).
    pub open spec fn encodable(self) -> bool {
        match self {
            Datum::Str(s) => encode_utf8(s).len() <= 255,
            _ => true,
        }
    }
}

/// The eight little-endian bytes of a 64-bit word.
pub open spec fn le8(u: u64) -> Seq<u8> {
    seq![
        u as u8,
        (u >> 8u64) as u8,
        (u >> 16u64) as u8,
        (u >> 24u64) as u8,
        (u >> 32u64) as u8,
        (u >> 40u64) as u8,
        (u >> 48u64) as u8,
        (u >> 56u64) as u8,
    ]
}

/// The 64-bit word whose little-endian bytes are the first eight of `b`.
pub open spec fn from_le8(b: Seq<u8>) -> u64 {
    (b[0] as u64) | ((b[1] as u64) << 8u64) | ((b[2] as u64) << 16u64) | ((b[3] as u64)
        << 24u64) | ((b[4] as u64) << 32u64) | ((b[5] as u64) << 40u64) | ((b[6] as u64)
        << 48u64) | ((b[7] as u64) << 56u64)
}

/// The binary encoding of a value: a tag byte, then the payload. A string's payload is its
/// UTF-8 length in one byte and its UTF-8 bytes; a number's, its eight little-endian
/// two's-complement bytes; a boolean's, one byte: 0 for `true`, 1 for `false`.
pub open spec fn encode_datum(d: Datum) -> Seq<u8> {
    match d {
        Datum::Str(s) => seq![typ_tag(Typ::String), encode_utf8(s).len() as u8] + encode_utf8(s),
        Datum::Num(n) => seq![typ_tag(Typ::Number)] + le8(#[verifier::truncate] (n as u64)),
        Datum::Bool(b) => seq![typ_tag(Typ::Boolean), if b { 0u8 } else { 1u8 }],
    }
}

/// The value encoded at the start of `b`, with the number of bytes it takes.
pub open spec fn decode_datum(b: Seq<u8>) -> Option<(Datum, int)> {
    if b.len() < 2 {
        None
    } else if b[0] == 0 {
        let n = b[1] as int;
        if b.len() < 2 + n || !valid_utf8(b.subrange(2, 2 + n)) {
            None
        } else {
            Some((Datum::Str(decode_utf8(b.subrange(2, 2 + n))), 2 + n))
        }
    } else if b[0] == 1 {
        if b.len() < 9 {
            None
        } else {
            Some((Datum::Num(#[verifier::truncate] (from_le8(b.subrange(1, 9)) as i64)), 9))
        }
    } else if b[0] == 2 {
        if b[1] == 0 {
            Some((Datum::Bool(true), 2))
        } else if b[1] == 1 {
            Some((Datum::Bool(false), 2))
        } else {
            None
        }
    } else {
        None
    }
}

/// The concatenated encodings of a sequence of values.
pub open spec fn encode_data(ds: Seq<Datum>) -> Seq<u8>
    decreases ds.len(),
{
    if ds.len() == 0 {
        Seq::empty()
    } else {
        encode_datum(ds[0]) + encode_data(ds.drop_first())
    }
}

/// The values encoded back to back in `b`, which must be used up exactly.
pub open spec fn decode_data(b: Seq<u8>) -> Option<Seq<Datum>>
    decreases b.len(),
{
    if b.len() == 0 {
        Some(Seq::empty())
    } else {
        match decode_datum(b) {
            Some((d, n)) => if 0 < n <= b.len() {
                match decode_data(b.subrange(n, b.len() as int)) {
                    Some(rest) => Some(seq![d] + rest),
                    None => None,
                }
            } else {
                None
            },
            None => None,
        }
    }
}

/// Every value of a sequence can be encoded.
pub open spec fn all_encodable(ds: Seq<Datum>) -> bool {
    forall|i: int| 0 <= i < ds.len() ==> #[trigger] ds[i].encodable()
}

/// The values held by a row of `Val`s.
pub open spec fn data_of(row: Seq<Val>) -> Seq<Datum> {
    row.map_values(|v: Val| v@)
}

proof fn lemma_le8_round_trip(u: u64)
    ensures
        from_le8(le8(u)) == u,
{
    let b = le8(u);
    assert(from_le8(b) == (((u as u8) as u64) | ((((u >> 8u64) as u8) as u64) << 8u64) | ((((u
        >> 16u64) as u8) as u64) << 16u64) | ((((u >> 24u64) as u8) as u64) << 24u64) | ((((u
        >> 32u64) as u8) as u64) << 32u64) | ((((u >> 40u64) as u8) as u64) << 40u64) | ((((u
        >> 48u64) as u8) as u64) << 48u64) | ((((u >> 56u64) as u8) as u64) << 56u64)));
    assert((((u as u8) as u64) | ((((u >> 8u64) as u8) as u64) << 8u64) | ((((u >> 16u64) as u8)
        as u64) << 16u64) | ((((u >> 24u64) as u8) as u64) << 24u64) | ((((u >> 32u64) as u8)
        as u64) << 32u64) | ((((u >> 40u64) as u8) as u64) << 40u64) | ((((u >> 48u64) as u8)
        as u64) << 48u64) | ((((u >> 56u64) as u8) as u64) << 56u64)) == u) by (bit_vector);
}

/// Decoding the encoding of a value gives the value back, and says how many bytes it took,
/// whatever bytes follow.
pub proof fn lemma_decode_encode(d: Datum, rest: Seq<u8>)
    requires
        d.encodable(),
    ensures
        decode_datum(encode_datum(d) + rest) == Some((d, encode_datum(d).len() as int)),
{
    let b = encode_datum(d) + rest;
    match d {
        Datum::Str(s) => {
            let e = encode_utf8(s);
            assert(b[1] == e.len() as u8);
            assert((e.len() as u8) as int == e.len());
            assert(b.subrange(2, 2 + e.len() as int) =~= e);
        },
        Datum::Num(n) => {
            let u = #[verifier::truncate] (n as u64);
            assert(b.subrange(1, 9) =~= le8(u));
            lemma_le8_round_trip(u);
            assert((#[verifier::truncate] ((#[verifier::truncate] (n as u64)) as i64))
                == n) by (bit_vector);
        },
        Datum::Bool(_) => {},
    }
}

/// Decoding the concatenated encodings of values gives the values back.
pub proof fn lemma_decode_encode_data(ds: Seq<Datum>)
    requires
        all_encodable(ds),
    ensures
        decode_data(encode_data(ds)) == Some(ds),
    decreases ds.len(),
{
    if ds.len() > 0 {
        let e = encode_data(ds);
        let first = encode_datum(ds[0]);
        let tail = encode_data(ds.drop_first());
        assert(ds[0].encodable());
        lemma_decode_encode(ds[0], tail);
        assert(e == first + tail);
        assert(e.subrange(first.len() as int, e.len() as int) =~= tail);
        assert(all_encodable(ds.drop_first())) by {
            assert forall|i: int| 0 <= i < ds.drop_first().len()
                implies #[trigger] ds.drop_first()[i].encodable() by {
                assert(ds[i + 1].encodable());
            }
        }
        lemma_decode_encode_data(ds.drop_first());
        assert(seq![ds[0]] + ds.drop_first() =~= ds);
    }
}

/// The values carried through an exec result.
pub open spec fn res_view(r: Result<Val, DbError>) -> Result<Datum, DbError> {
    match r {
        Ok(v) => Ok(v@),
        Err(e) => Err(e),
    }
}

/// `a + b`: sum of numbers, concatenation of strings.
pub open spec fn datum_add(a: Datum, b: Datum) -> Result<Datum, DbError> {
    match (a, b) {
        (Datum::Num(x), Datum::Num(y)) => match x.checked_add(y) {
            Some(z) => Ok(Datum::Num(z)),
            None => Err(DbError::Arithmetic),
        },
        (Datum::Str(x), Datum::Str(y)) => Ok(Datum::Str(x + y)),
        _ => Err(DbError::Type),
    }
}

/// `a - b` on numbers.
pub open spec fn datum_sub(a: Datum, b: Datum) -> Result<Datum, DbError> {
    match (a, b) {
        (Datum::Num(x), Datum::Num(y)) => match x.checked_sub(y) {
            Some(z) => Ok(Datum::Num(z)),
            None => Err(DbError::Arithmetic),
        },
        _ => Err(DbError::Type),
    }
}

/// `a * b` on numbers.
pub open spec fn datum_mul(a: Datum, b: Datum) -> Result<Datum, DbError> {
    match (a, b) {
        (Datum::Num(x), Datum::Num(y)) => match x.checked_mul(y) {
            Some(z) => Ok(Datum::Num(z)),
            None => Err(DbError::Arithmetic),
        },
        _ => Err(DbError::Type),
    }
}

/// `a / b` on numbers, truncating toward zero; dividing by zero is an error.
pub open spec fn datum_div(a: Datum, b: Datum) -> Result<Datum, DbError> {
    match (a, b) {
        (Datum::Num(x), Datum::Num(y)) => match x.checked_div(y) {
            Some(z) => Ok(Datum::Num(z)),
            None => Err(DbError::Arithmetic),
        },
        _ => Err(DbError::Type),
    }
}

/// Lexicographic order on byte strings.
pub open spec fn bytes_lt(a: Seq<u8>, b: Seq<u8>) -> bool
    decreases a.len(),
{
    if a.len() == 0 {
        b.len() > 0
    } else if b.len() == 0 {
        false
    } else if a[0] != b[0] {
        a[0] < b[0]
    } else {
        bytes_lt(a.drop_first(), b.drop_first())
    }
}

/// No byte string comes before itself.
pub proof fn lemma_bytes_lt_irreflexive(a: Seq<u8>)
    ensures
        !bytes_lt(a, a),
    decreases a.len(),
{
    if a.len() > 0 {
        lemma_bytes_lt_irreflexive(a.drop_first());
    }
}

/// Of two byte strings, at most one comes before the other.
pub proof fn lemma_bytes_lt_asymmetric(a: Seq<u8>, b: Seq<u8>)
    ensures
        !(bytes_lt(a, b) && bytes_lt(b, a)),
    decreases a.len(),
{
    if a.len() > 0 && b.len() > 0 && a[0] == b[0] {
        lemma_bytes_lt_asymmetric(a.drop_first(), b.drop_first());
    }
}

/// Strict order on two values of one type: numbers by size, `false` before `true`,
/// strings by their UTF-8 bytes.
pub open spec fn datum_lt(a: Datum, b: Datum) -> bool {
    match (a, b) {
        (Datum::Num(x), Datum::Num(y)) => x < y,
        (Datum::Bool(x), Datum::Bool(y)) => !x && y,
        (Datum::Str(x), Datum::Str(y)) => bytes_lt(encode_utf8(x), encode_utf8(y)),
        _ => false,
    }
}

/// Whether two byte strings are equal.
pub fn bytes_eq(a: &[u8], b: &[u8]) -> (r: bool)
    ensures
        r == (a@ == b@),
{
    if a.len() != b.len() {
        return false;
    }
    let mut i: usize = 0;
    while i < a.len()
        invariant
            a@.len() == b@.len(),
            0 <= i <= a@.len(),
            forall|j: int| 0 <= j < i ==> a@[j] == b@[j],
        decreases a@.len() - i,
    {
        if a[i] != b[i] {
            return false;
        }
        i = i + 1;
    }
    assert(a@ =~= b@);
    true
}

fn bytes_less(a: &[u8], b: &[u8]) -> (r: bool)
    ensures
        r == bytes_lt(a@, b@),
{
    let mut i: usize = 0;
    assert(a@.subrange(0, a@.len() as int) =~= a@);
    assert(b@.subrange(0, b@.len() as int) =~= b@);
    while i < a.len() && i < b.len()
        invariant
            0 <= i <= a@.len(),
            i <= b@.len(),
            bytes_lt(a@, b@) == bytes_lt(a@.subrange(i as int, a@.len() as int),
                b@.subrange(i as int, b@.len() as int)),
        decreases a@.len() - i,
    {
        let ghost sa = a@.subrange(i as int, a@.len() as int);
        let ghost sb = b@.subrange(i as int, b@.len() as int);
        if a[i] != b[i] {
            return a[i] < b[i];
        }
        assert(sa.drop_first() =~= a@.subrange(i + 1, a@.len() as int));
        assert(sb.drop_first() =~= b@.subrange(i + 1, b@.len() as int));
        i = i + 1;
    }
    i == a.len() && i < b.len()
}

/// Relies on `String::from_utf8`: it accepts exactly the valid UTF-8 byte strings,
/// and the string it builds holds the characters those bytes encode.
#[verifier::external_body]
pub(crate) fn string_from_utf8(bytes: Vec<u8>) -> (r: Option<String>)
    ensures
        r is Some <==> valid_utf8(bytes@),
        r is Some ==> r->Some_0@ == decode_utf8(bytes@),
{
    String::from_utf8(bytes).ok()
}

impl Val {
    /// Whether this value fits the binary encoding.
    pub fn encodable(&self) -> (r: bool)
        ensures
            r == self@.encodable(),
    {
        match self {
            Val::String(s) => s.as_str().as_bytes().len() <= 255,
            _ => true,
        }
    }

    /// Get the type of this value
    pub fn get_type(&self) -> (r: Typ)
        ensures
            r == self@.typ(),
    {
        match self {
            Val::String(_) => Typ::String,
            Val::Number(_) => Typ::Number,
            Val::Boolean(_) => Typ::Boolean,
        }
    }

    /// Append the encoding of this value to `out`.
    pub fn serialize(&self, out: &mut Vec<u8>) -> (r: Result<(), DbError>)
        ensures
            self@.encodable() ==> r == Ok::<(), DbError>(()) && final(out)@ == old(out)@
                + encode_datum(self@),
            !self@.encodable() ==> r == Err::<(), DbError>(DbError::TooLong) && final(out)@
                == old(out)@,
    {
        match self {
            Val::String(s) => {
                let bytes = s.as_str().as_bytes();
                if bytes.len() > 255 {
                    return Err(DbError::TooLong);
                }
                out.push(self.get_type().serialize());
                out.push(bytes.len() as u8);
                let ghost start = out@;
                let mut i: usize = 0;
                while i < bytes.len()
                    invariant
                        0 <= i <= bytes@.len(),
                        out@ == start + bytes@.subrange(0, i as int),
                    decreases bytes@.len() - i,
                {
                    out.push(bytes[i]);
                    i = i + 1;
                    assert(out@ =~= start + bytes@.subrange(0, i as int));
                }
                assert(bytes@.subrange(0, bytes@.len() as int) =~= bytes@);
                assert(out@ =~= old(out)@ + encode_datum(self@));
            },
            Val::Number(n) => {
                let u = *n as u64;
                out.push(self.get_type().serialize());
                out.push(u as u8);
                out.push((u >> 8u64) as u8);
                out.push((u >> 16u64) as u8);
                out.push((u >> 24u64) as u8);
                out.push((u >> 32u64) as u8);
                out.push((u >> 40u64) as u8);
                out.push((u >> 48u64) as u8);
                out.push((u >> 56u64) as u8);
                assert(out@ =~= old(out)@ + encode_datum(self@));
            },
            Val::Boolean(b) => {
                out.push(self.get_type().serialize());
                out.push(if *b { 0u8 } else { 1u8 });
                assert(out@ =~= old(out)@ + encode_datum(self@));
            },
        }
        Ok(())
    }

    /// Read one value from the front of `reader` and move `reader` past it.
    pub fn deserialize<'a>(reader: &mut &'a [u8]) -> (r: Result<Val, DbError>)
        ensures
            match decode_datum(old(reader)@) {
                Some((d, n)) => r is Ok && r->Ok_0@ == d && final(reader)@ == old(reader)@.subrange(
                    n,
                    old(reader)@.len() as int,
                ),
                None => r == Err::<Val, DbError>(DbError::Decoding) && final(reader)@ == old(
                    reader,
                )@,
            },
    {
        let data: &'a [u8] = *reader;
        let len = data.len();
        if len < 2 {
            return Err(DbError::Decoding);
        }
        let tag = data[0];
        if tag == 0 {
            let n = data[1] as usize;
            if len < 2 + n {
                return Err(DbError::Decoding);
            }
            let mut bytes: Vec<u8> = Vec::new();
            let mut i: usize = 2;
            while i < 2 + n
                invariant
                    2 <= i <= 2 + n <= len,
                    len == data@.len(),
                    bytes@ == data@.subrange(2, i as int),
                decreases 2 + n - i,
            {
                bytes.push(data[i]);
                i = i + 1;
                assert(bytes@ =~= data@.subrange(2, i as int));
            }
            let s = string_from_utf8(bytes);
            match s {
                Some(s) => {
                    *reader = &data[2 + n..len];
                    Ok(Val::String(s))
                },
                None => Err(DbError::Decoding),
            }
        } else if tag == 1 {
            if len < 9 {
                return Err(DbError::Decoding);
            }
            let u: u64 = (data[1] as u64) | ((data[2] as u64) << 8u64) | ((data[3] as u64)
                << 16u64) | ((data[4] as u64) << 24u64) | ((data[5] as u64) << 32u64) | ((
            data[6] as u64) << 40u64) | ((data[7] as u64) << 48u64) | ((data[8] as u64)
                << 56u64);
            assert(u == from_le8(data@.subrange(1, 9)));
            *reader = &data[9..len];
            Ok(Val::Number(u as i64))
        } else if tag == 2 {
            let b = data[1];
            if b == 0 {
                *reader = &data[2..len];
                Ok(Val::Boolean(true))
            } else if b == 1 {
                *reader = &data[2..len];
                Ok(Val::Boolean(false))
            } else {
                Err(DbError::Decoding)
            }
        } else {
            Err(DbError::Decoding)
        }
    }

    /// A copy of this value.
    pub fn duplicate(&self) -> (r: Val)
        ensures
            r@ == self@,
    {
        match self {
            Val::String(s) => Val::String(s.clone()),
            Val::Number(n) => Val::Number(*n),
            Val::Boolean(b) => Val::Boolean(*b),
        }
    }

    pub fn add(&self, rhs: &Val) -> (r: Result<Val, DbError>)
        ensures
            res_view(r) == datum_add(self@, rhs@),
    {
        match (self, rhs) {
            (Val::Number(a), Val::Number(b)) => match a.checked_add(*b) {
                Some(c) => Ok(Val::Number(c)),
                None => Err(DbError::Arithmetic),
            },
            (Val::String(a), Val::String(b)) => Ok(Val::String(a.clone().concat(b.as_str()))),
            _ => Err(DbError::Type),
        }
    }

    pub fn sub(&self, rhs: &Val) -> (r: Result<Val, DbError>)
        ensures
            res_view(r) == datum_sub(self@, rhs@),
    {
        match (self, rhs) {
            (Val::Number(a), Val::Number(b)) => match a.checked_sub(*b) {
                Some(c) => Ok(Val::Number(c)),
                None => Err(DbError::Arithmetic),
            },
            _ => Err(DbError::Type),
        }
    }

    pub fn mul(&self, rhs: &Val) -> (r: Result<Val, DbError>)
        ensures
            res_view(r) == datum_mul(self@, rhs@),
    {
        match (self, rhs) {
            (Val::Number(a), Val::Number(b)) => match a.checked_mul(*b) {
                Some(c) => Ok(Val::Number(c)),
                None => Err(DbError::Arithmetic),
            },
            _ => Err(DbError::Type),
        }
    }

    pub fn div(&self, rhs: &Val) -> (r: Result<Val, DbError>)
        ensures
            res_view(r) == datum_div(self@, rhs@),
    {
        match (self, rhs) {
            (Val::Number(a), Val::Number(b)) => match a.checked_div(*b) {
                Some(c) => Ok(Val::Number(c)),
                None => Err(DbError::Arithmetic),
            },
            _ => Err(DbError::Type),
        }
    }

    /// `self == rhs`, for two values of one type.
    pub fn equals(&self, rhs: &Val) -> (r: Result<bool, DbError>)
        ensures
            r == (if self@.typ() == rhs@.typ() {
                Ok::<bool, DbError>(self@ == rhs@)
            } else {
                Err(DbError::Type)
            }),
    {
        match (self, rhs) {
            (Val::String(a), Val::String(b)) => Ok(*a == *b),
            (Val::Number(a), Val::Number(b)) => Ok(*a == *b),
            (Val::Boolean(a), Val::Boolean(b)) => Ok(*a == *b),
            _ => Err(DbError::Type),
        }
    }

    /// `self < rhs`, for two values of one type.
    pub fn less_than(&self, rhs: &Val) -> (r: Result<bool, DbError>)
        ensures
            r == (if self@.typ() == rhs@.typ() {
                Ok::<bool, DbError>(datum_lt(self@, rhs@))
            } else {
                Err(DbError::Type)
            }),
    {
        match (self, rhs) {
            (Val::String(a), Val::String(b)) => Ok(bytes_less(a.as_str().as_bytes(),
                b.as_str().as_bytes())),
            (Val::Number(a), Val::Number(b)) => Ok(*a < *b),
            (Val::Boolean(a), Val::Boolean(b)) => Ok(!*a && *b),
            _ => Err(DbError::Type),
        }
    }

    /// The truth value of a boolean value.
    pub fn to_bool(&self) -> (r: bool)
        requires
            self is Boolean,
        ensures
            self@ == Datum::Bool(r),
    {
        match self {
            Val::Boolean(b) => *b,
            _ => false,
        }
    }
}

} // verus!
