//! Dynamically typed row values and the column kinds they are checked
//! against.
//!
//! A floating-point value is carried as its IEEE-754 bit pattern: the engine
//! never does arithmetic on it, it only classifies and stores it, so the bits
//! are the faithful representation and round-trip exactly.

use vstd::prelude::*;

verus! {

broadcast use vstd::std_specs::vec::axiom_vec_index_decreases;

/// The kind a column declares for its values.
#[derive(Clone, Copy, PartialEq, Eq, Structural, Debug)]
pub enum ColumnKind {
    /// UTF-8 text.
    Text,
    /// A numeric value that denotes a whole number: an integer, or a
    /// floating-point value whose bits encode an integral number.
    Integer,
    /// Any numeric value; whole numbers are accepted too.
    Float,
    /// A boolean.
    Boolean,
    /// A nested keyed object.
    Object,
}

/// A dynamically typed value stored in a row.
#[derive(Debug, PartialEq, Eq)]
pub enum Value {
    /// UTF-8 text.
    Text(String),
    /// A whole number.
    Integer(i64),
    /// A floating-point number, carried as its IEEE-754 bit pattern.
    Float(u64),
    /// A boolean.
    Boolean(bool),
    /// A nested object: a sequence of key/value entries.
    Object(Vec<(String, Value)>),
}

/// The mathematical model of a [`Value`].
pub enum SpecValue {
    Text(Seq<char>),
    Integer(i64),
    Float(u64),
    Boolean(bool),
    Object(Seq<(Seq<char>, SpecValue)>),
}

/// The model of a sequence of key/value entries, as it appears in a nested
/// object and in a row.
pub open spec fn entries_view(entries: Seq<(String, Value)>) -> Seq<(Seq<char>, SpecValue)>
    decreases entries,
{
    Seq::new(
        entries.len(),
        |i: int|
            // The range guard lets the recursion be measured on the nested
            // value; out of range the element is never looked at.
            if 0 <= i < entries.len() {
                (entries[i].0@, entries[i].1@)
            } else {
                arbitrary()
            },
    )
}

impl View for Value {
    type V = SpecValue;

    open spec fn view(&self) -> SpecValue
        decreases self,
    {
        match self {
            Value::Text(s) => SpecValue::Text(s@),
            Value::Integer(i) => SpecValue::Integer(*i),
            Value::Float(bits) => SpecValue::Float(*bits),
            Value::Boolean(b) => SpecValue::Boolean(*b),
            Value::Object(fields) => SpecValue::Object(entries_view(fields@)),
        }
    }
}

impl Clone for Value {
    /// Clones preserve the value's model exactly.
    #[verifier::loop_isolation(false)]
    fn clone(&self) -> (r: Self)
        ensures
            r@ == self@,
        decreases self,
    {
        match self {
            Value::Text(s) => Value::Text(s.clone()),
            Value::Integer(i) => Value::Integer(*i),
            Value::Float(bits) => Value::Float(*bits),
            Value::Boolean(b) => Value::Boolean(*b),
            Value::Object(fields) => {
                let mut out: Vec<(String, Value)> = Vec::new();
                let n = fields.len();
                for i in 0..n
                    invariant
                        out@.len() == i,
                        forall|j: int|
                            0 <= j < i ==> out@[j].0@ == fields@[j].0@ && out@[j].1@
                                == fields@[j].1@,
                {
                    out.push((fields[i].0.clone(), fields[i].1.clone()));
                }
                proof {
                    assert(entries_view(out@) =~= entries_view(fields@));
                }
                Value::Object(out)
            },
        }
    }
}

/// True when the IEEE-754 double behind these bits denotes a whole number,
/// read off the sign/exponent/mantissa fields alone: zeroes are whole,
/// infinities, NaNs, subnormals and magnitudes below one are not, and a
/// normal number is whole exactly when no mantissa bit falls below the
/// binary point.
pub open spec fn float_bits_integral(bits: u64) -> bool {
    let e = (bits >> 52) & 0x7ff;
    let m = bits & 0xf_ffff_ffff_ffff;
    if e == 0x7ff {
        false
    } else if e == 0 {
        m == 0
    } else if e < 1023 {
        false
    } else if e >= 1075 {
        true
    } else {
        m & (((1u64 << (1075 - e) as u64) - 1) as u64) == 0
    }
}

/// Decides [`float_bits_integral`] on the bit pattern.
pub fn float_is_integral(bits: u64) -> (r: bool)
    ensures
        r == float_bits_integral(bits),
{
    let e = (bits >> 52) & 0x7ff;
    let m = bits & 0xf_ffff_ffff_ffff;
    if e == 0x7ff {
        false
    } else if e == 0 {
        m == 0
    } else if e < 1023 {
        false
    } else if e >= 1075 {
        true
    } else {
        let shift = 1075 - e;
        proof {
            assert(1u64 << shift >= 1) by (bit_vector)
                requires
                    shift <= 52,
            ;
        }
        m & ((1u64 << shift) - 1) == 0
    }
}

impl Value {
    /// True when this value is compatible with the given column kind.
    pub fn has_kind(&self, kind: ColumnKind) -> (r: bool)
        ensures
            r == kind_compatible(kind, self@),
    {
        match (kind, self) {
            (ColumnKind::Text, Value::Text(_)) => true,
            (ColumnKind::Integer, Value::Integer(_)) => true,
            (ColumnKind::Integer, Value::Float(bits)) => float_is_integral(*bits),
            (ColumnKind::Float, Value::Integer(_)) => true,
            (ColumnKind::Float, Value::Float(_)) => true,
            (ColumnKind::Boolean, Value::Boolean(_)) => true,
            (ColumnKind::Object, Value::Object(_)) => true,
            _ => false,
        }
    }
}

/// Type compatibility between a declared column kind and a candidate value:
/// text with text, integer with any numeric value representable as a whole
/// number (an integer, or a float whose bits encode one), float with any
/// number, boolean with boolean, object with object.
pub open spec fn kind_compatible(kind: ColumnKind, v: SpecValue) -> bool {
    match kind {
        ColumnKind::Text => v is Text,
        ColumnKind::Integer => match v {
            SpecValue::Integer(_) => true,
            SpecValue::Float(bits) => float_bits_integral(bits),
            _ => false,
        },
        ColumnKind::Float => v is Integer || v is Float,
        ColumnKind::Boolean => v is Boolean,
        ColumnKind::Object => v is Object,
    }
}

} // verus!
