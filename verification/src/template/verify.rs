//! Rendering a template again, to see that an edit came out as it was meant.

use vstd::prelude::*;
use vstd::string::*;
use vstd::utf8::*;

use crate::chezmoi::{called, outcome, ChezmoiClient, ChezmoiError};
use crate::cmd::CommandRunner;
use crate::text::bytes_eq;

verus! {

#[derive(Debug)]
pub enum VerifyError {
    Chezmoi(ChezmoiError),
    Mismatch { expected: Vec<u8>, actual: Vec<u8> },
}

impl VerifyError {
    pub open spec fn message_spec(self) -> Seq<char> {
        match self {
            VerifyError::Chezmoi(e) => e.message_spec(),
            VerifyError::Mismatch { .. } =>
                "re-rendered template does not match the resolved text"@,
        }
    }

    /// The error in words.
    pub fn message(&self) -> (r: String)
        ensures
            r@ == self.message_spec(),
    {
        match self {
            VerifyError::Chezmoi(e) => e.message(),
            VerifyError::Mismatch { .. } =>
                "re-rendered template does not match the resolved text".to_owned(),
        }
    }
}

/// Renders a template and compares what comes out, byte for byte, with what was expected.
pub fn verify_write_back<R: CommandRunner>(
    chezmoi: &mut ChezmoiClient<R>,
    new_template: &str,
    expected: &str,
) -> (r: Result<(), VerifyError>)
    ensures
        called(
            *old(chezmoi),
            *final(chezmoi),
            seq!["execute-template"@],
            Some(encode_utf8(new_template@)),
            old(chezmoi).opts.timeout,
        ),
        match (outcome(final(chezmoi).answer()), r) {
            (Ok(b), Ok(_)) => b == encode_utf8(expected@),
            (Ok(b), Err(VerifyError::Mismatch { expected: want, actual })) => {
                &&& b != encode_utf8(expected@)
                &&& want@ == encode_utf8(expected@)
                &&& actual@ == b
            },
            (Err(f), Err(VerifyError::Chezmoi(e))) => e@ == f,
            _ => false,
        },
{
    let actual = match chezmoi.execute_template(new_template.as_bytes()) {
        Ok(b) => b,
        Err(e) => {
            return Err(VerifyError::Chezmoi(e));
        },
    };
    let want = expected.as_bytes();
    if !bytes_eq(actual.as_slice(), want) {
        return Err(
            VerifyError::Mismatch { expected: vstd::slice::slice_to_vec(want), actual },
        );
    }
    Ok(())
}

} // verus!
