//! Identifier generation and formatting.
//!
//! A record identifier is a 128-bit random value. It is carried either in
//! canonical hyphenated form (36 bytes, hyphens at positions 8, 13, 18 and
//! 23) or as compact lowercase hex (32 bytes), depending on the layout mode.

use vstd::prelude::*;

use crate::text::push_range;

verus! {

/// A lowercase hexadecimal digit.
pub open spec fn is_lower_hex(b: u8) -> bool {
    (48 <= b && b <= 57) || (97 <= b && b <= 102)
}

/// The canonical hyphenated form of a 128-bit identifier: 36 bytes,
/// hyphens at positions 8, 13, 18 and 23, lowercase hex elsewhere.
pub open spec fn is_hyphenated_id(s: Seq<u8>) -> bool {
    &&& s.len() == 36
    &&& forall|k: int|
        0 <= k < 36 ==> if k == 8 || k == 13 || k == 18 || k == 23 {
            s[k] == 45
        } else {
            is_lower_hex(#[trigger] s[k])
        }
}

/// The compact form: 32 bytes of lowercase hex.
pub open spec fn is_compact_id(s: Seq<u8>) -> bool {
    s.len() == 32 && forall|k: int| 0 <= k < 32 ==> is_lower_hex(#[trigger] s[k])
}

/// The hyphenated form with its four separators removed.
pub open spec fn compact_spec(s: Seq<u8>) -> Seq<u8>
    recommends
        s.len() == 36,
{
    s.subrange(0, 8) + s.subrange(9, 13) + s.subrange(14, 18) + s.subrange(19, 23) + s.subrange(
        24,
        36,
    )
}

/// Relies on `uuid::Uuid::new_v4` and the `Display` impl of `Uuid`: a fresh
/// random version-4 identifier, formatted as the lowercase hyphenated form.
/// Nothing is assumed about the random value itself.
#[verifier::external_body]
pub(crate) fn fresh_id() -> (r: Vec<u8>)
    ensures
        is_hyphenated_id(r@),
{
    uuid::Uuid::new_v4().to_string().into_bytes()
}

/// Strips the separators from a hyphenated identifier, yielding the compact
/// lowercase-hex form. The hyphenated form is lowercase already, so no
/// byte needs a case change.
pub fn compact_of(id: &Vec<u8>) -> (r: Vec<u8>)
    requires
        is_hyphenated_id(id@),
    ensures
        r@ == compact_spec(id@),
        is_compact_id(r@),
{
    let mut r: Vec<u8> = Vec::new();
    push_range(&mut r, id, 0, 8);
    push_range(&mut r, id, 9, 13);
    push_range(&mut r, id, 14, 18);
    push_range(&mut r, id, 19, 23);
    push_range(&mut r, id, 24, 36);
    proof {
        assert(r@ =~= compact_spec(id@));
        assert forall|k: int| 0 <= k < 32 implies is_lower_hex(#[trigger] r@[k]) by {
            if k < 8 {
                assert(r@[k] == id@[k]);
            } else if k < 12 {
                assert(r@[k] == id@[k + 1]);
            } else if k < 16 {
                assert(r@[k] == id@[k + 2]);
            } else if k < 20 {
                assert(r@[k] == id@[k + 3]);
            } else {
                assert(r@[k] == id@[k + 4]);
            }
        }
    }
    r
}

} // verus!
