//! Recognising that the system runs in power-saver mode, from what the
//! power profile daemon's `get` command prints.
use vstd::prelude::*;
use crate::text::{trim_spec, trimmed_equals};

verus! {

/// The text that `String::from_utf8_lossy` makes of `bytes`: their UTF-8
/// decoding, with each invalid sequence replaced by U+FFFD.
pub uninterp spec fn utf8_lossy(bytes: Seq<u8>) -> Seq<char>;

/// Trusted: `String::from_utf8_lossy`, turned into an owned `String`. Its result
/// is named `utf8_lossy`; std documents that valid UTF-8 comes back as
/// the decoded text unchanged. How invalid sequences are replaced is left unsaid.
#[verifier::external_body]
fn decode_lossy(bytes: &[u8]) -> (r: String)
    ensures
        r@ == utf8_lossy(bytes@),
        vstd::utf8::valid_utf8(bytes@) ==> r@ == vstd::utf8::decode_utf8(bytes@),
{
    String::from_utf8_lossy(bytes).into_owned()
}

/// Whether a reported power profile names the power-saver profile: the
/// text, trimmed of surrounding white space, is exactly "power-saver".
pub fn is_power_saver_profile(profile: &str) -> (r: bool)
    ensures
        r == (trim_spec(profile@) == "power-saver"@),
{
    trimmed_equals(profile, "power-saver")
}

/// Whether the raw output of the power profile query names the power-saver
/// profile (see `is_power_saver_profile`).
pub fn is_power_saver_output(stdout: &[u8]) -> (r: bool)
    ensures
        r == (trim_spec(utf8_lossy(stdout@)) == "power-saver"@),
        vstd::utf8::valid_utf8(stdout@) ==> r == (trim_spec(vstd::utf8::decode_utf8(stdout@))
            == "power-saver"@),
{
    let text = decode_lossy(stdout);
    is_power_saver_profile(text.as_str())
}

} // verus!
