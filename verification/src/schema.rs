//! Fields and terms: the typed keys of the term dictionary.

use vstd::prelude::*;
use vstd::string::StringSliceAdditionalSpecFns;
use vstd::string::StrSliceExecFns;

verus! {

/// A field of the schema, identified by its ordinal.
#[derive(Clone, Copy, Debug, PartialEq, Eq, Structural)]
pub struct Field(pub u32);

/// The big-endian bytes of `v`: the dictionary key encoding of an unsigned
/// value, chosen so that byte order matches numeric order.
pub open spec fn u64_key(v: u64) -> Seq<u8> {
    seq![
        ((v as int) / 0x100_0000_0000_0000 % 256) as u8,
        ((v as int) / 0x1_0000_0000_0000 % 256) as u8,
        ((v as int) / 0x100_0000_0000 % 256) as u8,
        ((v as int) / 0x1_0000_0000 % 256) as u8,
        ((v as int) / 0x100_0000 % 256) as u8,
        ((v as int) / 0x1_0000 % 256) as u8,
        ((v as int) / 0x100 % 256) as u8,
        ((v as int) % 256) as u8,
    ]
}

/// Signed values are shifted into unsigned order before encoding: the key of
/// `v` is the key of `v + 2^63`.
pub open spec fn i64_shifted(v: i64) -> u64 {
    (v + 0x8000_0000_0000_0000) as u64
}

pub open spec fn i64_key(v: i64) -> Seq<u8> {
    u64_key(i64_shifted(v))
}

/// A term: a field and the value's key bytes.
#[derive(Clone, Debug)]
pub struct Term {
    field: Field,
    value: Vec<u8>,
}

impl Term {
    pub closed spec fn sfield(&self) -> Field {
        self.field
    }

    pub closed spec fn svalue(&self) -> Seq<u8> {
        self.value@
    }

    /// A term over an unsigned value, keyed big endian.
    pub fn from_field_u64(field: Field, val: u64) -> (r: Term)
        ensures
            r.sfield() == field,
            r.svalue() == u64_key(val),
    {
        Term { field, value: u64_key_bytes(val) }
    }

    /// A term over a signed value, shifted so key order is numeric order.
    pub fn from_field_i64(field: Field, val: i64) -> (r: Term)
        ensures
            r.sfield() == field,
            r.svalue() == i64_key(val),
    {
        let shifted: u64 = if val >= 0 {
            (val as u64) + 0x8000_0000_0000_0000u64
        } else {
            (val - i64::MIN) as u64
        };
        proof {
            assert(shifted == i64_shifted(val));
        }
        Term { field, value: u64_key_bytes(shifted) }
    }

    /// A term over text, keyed by its bytes.
    pub fn from_field_text(field: Field, text: &str) -> (r: Term)
        ensures
            r.sfield() == field,
            r.svalue() == text.spec_bytes(),
    {
        Term { field, value: text.as_bytes_vec() }
    }

    /// The value part of the term's key.
    pub fn value_bytes(&self) -> (r: &Vec<u8>)
        ensures
            r@ == self.svalue(),
    {
        &self.value
    }

    /// The field the term belongs to.
    pub fn field(&self) -> (r: Field)
        ensures
            r == self.sfield(),
    {
        self.field
    }
}

/// The big-endian key bytes of `v`.
pub fn u64_key_bytes(v: u64) -> (r: Vec<u8>)
    ensures
        r@ == u64_key(v),
{
    let mut r: Vec<u8> = Vec::new();
    r.push((v / 0x100_0000_0000_0000 % 256) as u8);
    r.push((v / 0x1_0000_0000_0000 % 256) as u8);
    r.push((v / 0x100_0000_0000 % 256) as u8);
    r.push((v / 0x1_0000_0000 % 256) as u8);
    r.push((v / 0x100_0000 % 256) as u8);
    r.push((v / 0x1_0000 % 256) as u8);
    r.push((v / 0x100 % 256) as u8);
    r.push((v % 256) as u8);
    proof {
        assert(r@ =~= u64_key(v));
    }
    r
}

} // verus!
