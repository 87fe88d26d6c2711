//! An agent's avatar is one character as a reader sees it: one extended
//! grapheme cluster, such as an emoji with its skin-tone modifier.

use unicode_segmentation::UnicodeSegmentation;
use vstd::prelude::*;
use vstd::string::StringSliceAdditionalSpecFns;

verus! {

broadcast use vstd::utf8::encode_utf8_decode_utf8;

/// The avatar an agent shows when it has none of its own.
pub const DEFAULT_AGENT_AVATAR: &'static str = "🤖";

/// The first extended grapheme cluster of `s`, by the Unicode rules
/// `unicode-segmentation` implements.
pub uninterp spec fn first_grapheme(s: Seq<char>) -> Seq<char>;

/// `s.graphemes(true).next()` from `unicode-segmentation`.
///
/// Claims what its source shows: an empty string has no cluster; any
/// other string's first cluster is a non-empty prefix of it (the iterator
/// slices the string from 0 to the first boundary past at least one
/// character), and which prefix is `first_grapheme`.
#[verifier::external_body]
fn first_grapheme_of(s: &str) -> (r: Option<&str>)
    ensures
        r is None <==> s@.len() == 0,
        r matches Some(g) ==> g@ == first_grapheme(s@) && 1 <= g.spec_bytes().len() <= s.spec_bytes().len()
            && g.spec_bytes() == s.spec_bytes().subrange(0, g.spec_bytes().len() as int),
{
    s.graphemes(true).next()
}

/// What the avatar field is cut back to after an edit: its first character
/// when it holds more than one, or `None` when it is empty or already a
/// single character and stays as it is.
pub fn clamped_avatar(value: &str) -> (r: Option<String>)
    ensures
        r is Some <==> value@.len() > 0 && first_grapheme(value@) != value@,
        r matches Some(s) ==> s@ == first_grapheme(value@),
{
    match first_grapheme_of(value) {
        None => None,
        Some(first) => {
            if first.as_bytes().len() == value.as_bytes().len() {
                proof {
                    assert(first.spec_bytes() =~= value.spec_bytes());
                    vstd::utf8::encode_utf8_decode_utf8(first@);
                    vstd::utf8::encode_utf8_decode_utf8(value@);
                }
                None
            } else {
                Some(first.to_owned())
            }
        },
    }
}

/// The avatar a dashboard card shows: the first character of the agent's
/// avatar, or the default when it has none.
pub fn card_avatar(avatar: &str) -> (r: String)
    ensures
        r@ == if avatar@.len() == 0 {
            DEFAULT_AGENT_AVATAR@
        } else {
            first_grapheme(avatar@)
        },
{
    match first_grapheme_of(avatar) {
        Some(first) => first.to_owned(),
        None => DEFAULT_AGENT_AVATAR.to_owned(),
    }
}

} // verus!
