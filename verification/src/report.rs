//! Turning a rendered report buffer into text.
use crate::error::Error;
use crate::text::concat;
use vstd::prelude::*;
use vstd::utf8::{decode_utf8, valid_utf8};

verus! {

/// The text `String::from_utf8` gives, through its error's `Display`, for
/// bytes that are not UTF-8.
pub uninterp spec fn utf8_error_text(bytes: Seq<u8>) -> Seq<char>;

/// `String::from_utf8`: the decoded text when `bytes` is UTF-8, else the
/// error's text.
///
/// Claimed: success exactly on valid UTF-8, with the decoded characters; on
/// failure the error text, which depends on the bytes alone.
#[verifier::external_body]
fn string_from_utf8(bytes: Vec<u8>) -> (r: Result<String, String>)
    ensures
        r is Ok <==> valid_utf8(bytes@),
        r matches Ok(s) ==> s@ == decode_utf8(bytes@),
        r matches Err(t) ==> t@ == utf8_error_text(bytes@),
{
    String::from_utf8(bytes).map_err(|err| err.to_string())
}

/// The report text held in `bytes`; a report error `what: reason` when the
/// bytes are not UTF-8.
pub fn utf8_report(bytes: Vec<u8>, what: &str) -> (r: Result<String, Error>)
    ensures
        valid_utf8(bytes@) ==> (r matches Ok(s) && s@ == decode_utf8(bytes@)),
        !valid_utf8(bytes@) ==> (r matches Err(e) && e matches Error::Report(m) && m@ == what@ + ": "@
            + utf8_error_text(bytes@)),
{
    match string_from_utf8(bytes) {
        Ok(s) => Ok(s),
        Err(reason) => {
            let head = concat(what, ": ");
            Err(Error::Report(concat(head.as_str(), reason.as_str())))
        },
    }
}

/// The JSON report text held in `bytes` (see [`utf8_report`]).
pub fn utf8_json(bytes: Vec<u8>) -> (r: Result<String, Error>)
    ensures
        valid_utf8(bytes@) ==> (r matches Ok(s) && s@ == decode_utf8(bytes@)),
        !valid_utf8(bytes@) ==> (r matches Err(e) && e matches Error::Report(m) && m@ == "json report: "@
            + utf8_error_text(bytes@)),
{
    proof {
        reveal_strlit("json report");
        reveal_strlit("json report: ");
        reveal_strlit(": ");
        assert("json report"@ + ": "@ =~= "json report: "@);
    }
    utf8_report(bytes, "json report")
}

/// The JSON text of a buffer whose writing ended with `written`: the write's
/// error if it failed, else the buffer's text.
pub fn finish_json_buffer(written: Result<(), Error>, bytes: Vec<u8>) -> (r: Result<String, Error>)
    ensures
        written is Err ==> r == Err::<String, Error>(written->Err_0),
        written is Ok && valid_utf8(bytes@) ==> (r matches Ok(s) && s@ == decode_utf8(bytes@)),
        written is Ok && !valid_utf8(bytes@) ==> (r matches Err(e) && e matches Error::Report(m) && m@
            == "json report: "@ + utf8_error_text(bytes@)),
{
    match written {
        Err(e) => Err(e),
        Ok(()) => utf8_json(bytes),
    }
}

} // verus!
