//! Which binary is running: the build identifier the About window and a
//! bug report show, and the one line a bug report needs. The version itself
//! is the running binary's own, read where the binary is built.

use crate::strings::{bytes_eq, lemma_empty_valid, push_str_bytes, string_from_utf8};
use vstd::prelude::*;
use vstd::string::StringSliceAdditionalSpecFns;
use vstd::utf8::encode_utf8;

verus! {

/// Stamped in place of the commit when there was no repository to ask.
pub const UNKNOWN_COMMIT: &'static str = "unknown";

/// The bytes of the build identifier for `date` and `commit`, with
/// `unknown_label` standing where an unstamped commit would be.
pub open spec fn build_bytes(date: Seq<u8>, commit: Seq<u8>, unknown_label: Seq<u8>) -> Seq<u8> {
    date + ", ".spec_bytes() + if commit == UNKNOWN_COMMIT.spec_bytes() {
        unknown_label
    } else {
        commit
    }
}

/// The build identifier: the build date, then the commit. An unstamped
/// commit is named by `unknown_label` (already localized) rather than left
/// as the raw stamp, so the reader can tell it was not omitted.
pub fn format_build(date: &str, commit: &str, unknown_label: &str) -> (r: String)
    ensures
        encode_utf8(r@) == build_bytes(date.spec_bytes(), commit.spec_bytes(), unknown_label.spec_bytes()),
{
    let mut out: Vec<u8> = Vec::new();
    proof {
        lemma_empty_valid();
    }
    push_str_bytes(&mut out, date);
    push_str_bytes(&mut out, ", ");
    if bytes_eq(commit.as_bytes(), UNKNOWN_COMMIT.as_bytes()) {
        push_str_bytes(&mut out, unknown_label);
    } else {
        push_str_bytes(&mut out, commit);
    }
    string_from_utf8(out)
}

/// The bytes of the copied details: the app's name, its version, and the
/// build identifier in brackets.
pub open spec fn details_bytes(app_name: Seq<u8>, version: Seq<u8>, build: Seq<u8>) -> Seq<u8> {
    app_name + " ".spec_bytes() + version + " (".spec_bytes() + build + ")".spec_bytes()
}

/// What the copy action puts on the clipboard, everything a bug report
/// needs about which binary was running, in one line: `app_name` (already
/// localized), the running binary's released `version`, and the build
/// identifier `build`.
pub fn build_details(app_name: &str, version: &str, build: &str) -> (r: String)
    ensures
        encode_utf8(r@) == details_bytes(app_name.spec_bytes(), version.spec_bytes(), build.spec_bytes()),
{
    let mut out: Vec<u8> = Vec::new();
    proof {
        lemma_empty_valid();
    }
    push_str_bytes(&mut out, app_name);
    push_str_bytes(&mut out, " ");
    push_str_bytes(&mut out, version);
    push_str_bytes(&mut out, " (");
    push_str_bytes(&mut out, build);
    push_str_bytes(&mut out, ")");
    proof {
        assert(out@ =~= details_bytes(app_name.spec_bytes(), version.spec_bytes(), build.spec_bytes()));
    }
    string_from_utf8(out)
}

} // verus!
