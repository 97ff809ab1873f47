//! Isotropic elastic material: steel, with its interchange record.

use vstd::prelude::*;

use crate::model::Material;
use crate::rat::Q;
use crate::rat::Rat;

verus! {

/// Isotropic steel: elastic modulus 210 GPa, cross-section area 1 cm².
#[derive(Clone, Copy, Debug, PartialEq, Eq, Structural)]
pub struct Steel {
    pub e: Rat,
    pub area: Rat,
}

/// Plain structured data a material is exchanged as: the exact numerator
/// and denominator of each property.
#[derive(Clone, Copy, Debug, PartialEq, Eq, Structural)]
pub struct MaterialRecord {
    pub e_num: i64,
    pub e_den: i64,
    pub area_num: i64,
    pub area_den: i64,
}

/// The record a material serializes to.
pub open spec fn record_of(s: Steel) -> MaterialRecord {
    MaterialRecord {
        e_num: s.e.num,
        e_den: s.e.den,
        area_num: s.area.num,
        area_den: s.area.den,
    }
}

/// The material a record deserializes to; `None` when the record does not
/// describe valid scalars or a positive modulus.
pub open spec fn steel_of(rec: MaterialRecord) -> Option<Steel> {
    if rec.e_den > 0 && rec.area_den > 0 && rec.e_num > 0 {
        Some(Steel { e: Rat { num: rec.e_num, den: rec.e_den }, area: Rat { num: rec.area_num, den: rec.area_den } })
    } else {
        None
    }
}

impl Steel {
    pub open spec fn inv(self) -> bool {
        self.e.wf() && self.e@.n > 0 && self.area.wf()
    }

    /// Serializes the material as plain structured data.
    pub fn to_record(&self) -> (r: MaterialRecord)
        ensures
            r == record_of(*self),
    {
        MaterialRecord {
            e_num: self.e.num(),
            e_den: self.e.den(),
            area_num: self.area.num(),
            area_den: self.area.den(),
        }
    }

    /// Deserializes a record, validating it.
    pub fn from_record(rec: &MaterialRecord) -> (r: Option<Steel>)
        ensures
            r == steel_of(*rec),
            r matches Some(s) ==> s.inv(),
    {
        if rec.e_den > 0 && rec.area_den > 0 && rec.e_num > 0 {
            Some(Steel {
                e: Rat::new(rec.e_num, rec.e_den),
                area: Rat::new(rec.area_num, rec.area_den),
            })
        } else {
            None
        }
    }
}

/// Round-trip law: serializing a valid material and deserializing the
/// record reproduces the identical material, and with it the identical
/// elastic modulus and area that its accessors return.
pub proof fn lemma_record_round_trip(s: Steel)
    requires
        s.inv(),
    ensures
        steel_of(record_of(s)) == Some(s),
        steel_of(record_of(s)) matches Some(s2) ==> s2.spec_e() == s.spec_e()
            && s2.spec_area() == s.spec_area(),
{
}

impl Default for Steel {
    /// The demo steel: E = 210·10⁹ Pa, A = 10⁻⁴ m².
    fn default() -> (r: Self)
        ensures
            r.e@ == (Q { n: 210_000_000_000, d: 1 }),
            r.area@ == (Q { n: 1, d: 10_000 }),
            r.inv(),
    {
        Steel { e: Rat::from_int(210_000_000_000), area: Rat::new(1, 10_000) }
    }
}

impl Material for Steel {
    open spec fn wf(&self) -> bool {
        self.inv()
    }

    open spec fn spec_e(&self) -> Rat {
        self.e
    }

    open spec fn spec_area(&self) -> Option<Rat> {
        Some(self.area)
    }

    fn e(&self) -> (r: Rat) {
        self.e
    }

    fn area(&self) -> (r: Option<Rat>) {
        Some(self.area)
    }
}

} // verus!
