//! Short random identifiers for the players of a table.

use vstd::prelude::*;
use vstd::string::StrSliceExecFns;

verus! {

/// A lowercase hexadecimal digit.
pub open spec fn is_lower_hex(c: char) -> bool {
    ('0' <= c && c <= '9') || ('a' <= c && c <= 'f')
}

/// The text of a UUID in its hyphenated form: 36 characters, lowercase
/// hexadecimal digits with hyphens at positions 8, 13, 18 and 23.
pub open spec fn is_hyphenated_uuid(s: Seq<char>) -> bool {
    &&& s.len() == 36
    &&& forall|i: int|
        0 <= i < 36 ==> if i == 8 || i == 13 || i == 18 || i == 23 {
            #[trigger] s[i] == '-'
        } else {
            is_lower_hex(s[i])
        }
}

/// The text of a fresh random (version 4) UUID, from
/// `uuid::Uuid::new_v4` printed through its `Display` impl. In uuid 1.x that
/// impl writes the hyphenated lowercase form (`format_hyphenated`): 32
/// lowercase hex digits with hyphens after the 8th, 12th, 16th and 20th.
/// Which digits come out is left unsaid: they are random.
#[verifier::external_body]
fn random_uuid_text() -> (s: String)
    ensures
        is_hyphenated_uuid(s@),
{
    uuid::Uuid::new_v4().to_string()
}

/// The first six characters of an ASCII text.
pub fn short_id(full: &str) -> (id: String)
    requires
        full.is_ascii(),
        full@.len() >= 6,
    ensures
        id@ == full@.subrange(0, 6),
{
    full.substring_ascii(0, 6).to_string()
}

/// A fresh identifier for this player: the first six characters of a random
/// UUID, so six lowercase hexadecimal digits.
pub fn new_player_id() -> (id: String)
    ensures
        id@.len() == 6,
        forall|i: int| 0 <= i < 6 ==> is_lower_hex(#[trigger] id@[i]),
{
    let full = random_uuid_text();
    assert(full@.len() == 36);
    assert forall|i: int| 0 <= i < full@.len() implies '\0' <= #[trigger] full@[i] <= '\u{7f}' by {
        assert(i == 8 || i == 13 || i == 18 || i == 23 || is_lower_hex(full@[i]));
    }
    let id = short_id(full.as_str());
    assert forall|i: int| 0 <= i < 6 implies is_lower_hex(#[trigger] id@[i]) by {
        assert(id@[i] == full@[i]);
    }
    id
}

} // verus!
