use vstd::prelude::*;

verus! {

/// The declared type of a column, and the tag of a value.
#[derive(Clone, Copy, Debug, Hash, PartialEq, Eq, Structural)]
pub enum Typ {
    String,
    Number,
    Boolean,
}

/// The one-byte tag that stands for a type in every binary encoding.
pub open spec fn typ_tag(t: Typ) -> u8 {
    match t {
        Typ::String => 0,
        Typ::Number => 1,
        Typ::Boolean => 2,
    }
}

/// The type that a tag byte stands for, if any.
pub open spec fn typ_of_tag(b: u8) -> Option<Typ> {
    if b == 0 {
        Some(Typ::String)
    } else if b == 1 {
        Some(Typ::Number)
    } else if b == 2 {
        Some(Typ::Boolean)
    } else {
        None
    }
}

impl Typ {
    pub fn serialize(&self) -> (r: u8)
        ensures
            r == typ_tag(*self),
    {
        match self {
            Typ::String => 0,
            Typ::Number => 1,
            Typ::Boolean => 2,
        }
    }

    pub fn deserialize(val: u8) -> (r: Option<Self>)
        ensures
            r == typ_of_tag(val),
    {
        match val {
            0 => Some(Typ::String),
            1 => Some(Typ::Number),
            2 => Some(Typ::Boolean),
            _ => None,
        }
    }
}

/// Reading back the tag of a type gives the type.
pub proof fn lemma_typ_round_trip(t: Typ)
    ensures
        typ_of_tag(typ_tag(t)) == Some(t),
{
}

} // verus!
