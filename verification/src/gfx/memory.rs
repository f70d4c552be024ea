//! Memory types.

use vstd::prelude::*;

verus! {

/// Memory type `i` is among the allowed ones and has all required properties.
pub open spec fn memory_type_fits(
    type_bits: u32,
    properties: Seq<u32>,
    required: u32,
    i: int,
) -> bool {
    type_bits & (1u32 << (i as u32)) != 0 && properties[i] & required == required
}

/// The first memory type that is allowed by `type_bits` and has all `required`
/// properties. `properties[i]` are the property bits of type `i`.
pub fn find_memory_type(type_bits: u32, properties: &[u32], required: u32) -> (found: Option<u32>)
    requires
        properties@.len() <= 32,
    ensures
        match found {
            Some(i) => {
                &&& i < properties@.len()
                &&& memory_type_fits(type_bits, properties@, required, i as int)
                &&& forall|j: int|
                    0 <= j < i ==> !memory_type_fits(type_bits, properties@, required, j)
            },
            None => forall|j: int|
                0 <= j < properties@.len() ==> !memory_type_fits(
                    type_bits,
                    properties@,
                    required,
                    j,
                ),
        },
{
    let mut i: u32 = 0;
    while (i as usize) < properties.len()
        invariant
            properties@.len() <= 32,
            i <= properties@.len(),
            forall|j: int| 0 <= j < i ==> !memory_type_fits(type_bits, properties@, required, j),
        decreases properties@.len() - i,
    {
        let supported: bool = type_bits & (1u32 << i) != 0;
        let has_props: bool = properties[i as usize] & required == required;
        if supported && has_props {
            return Some(i);
        }
        i += 1;
    }
    None
}

/// Memory type `i` is allowed if the bit worth 2 to the `i` is set, and it must lack
/// none of the required properties; more of them do no harm.
pub proof fn law_memory_type_goes_by_bits(
    type_bits: u32,
    properties: Seq<u32>,
    required: u32,
    i: int,
)
    requires
        0 <= i < properties.len(),
        i < 32,
    ensures
        memory_type_fits(type_bits, properties, required, i) <==> {
            &&& (type_bits >> (i as u32)) % 2 == 1
            &&& !properties[i] & required == 0
        },
{
    let p: u32 = properties[i];
    let k: u32 = i as u32;
    assert(k < 32 ==> ((type_bits & (1u32 << k) != 0) <==> (type_bits >> k) % 2 == 1))
        by (bit_vector);
    assert((p & required == required) <==> (!p & required == 0)) by (bit_vector);
}

/// Asking for less, or allowing more types, never rules a type out; asking for
/// nothing leaves only the bit to decide.
pub proof fn law_fewer_demands_fit_as_well(
    type_bits: u32,
    more_bits: u32,
    properties: Seq<u32>,
    required: u32,
    less: u32,
    i: int,
)
    requires
        0 <= i < properties.len(),
        i < 32,
        type_bits & more_bits == type_bits,
        required & less == less,
        memory_type_fits(type_bits, properties, required, i),
    ensures
        memory_type_fits(more_bits, properties, less, i),
        memory_type_fits(type_bits, properties, 0, i),
{
    let p: u32 = properties[i];
    let bit: u32 = 1u32 << (i as u32);
    assert(type_bits & more_bits == type_bits && type_bits & bit != 0 ==> more_bits & bit != 0)
        by (bit_vector);
    assert(required & less == less && p & required == required ==> p & less == less)
        by (bit_vector);
    assert(p & 0 == 0) by (bit_vector);
}

} // verus!
