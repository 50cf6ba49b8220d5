//! The texts that the operating system's error numbers stand for.

use vstd::prelude::*;
use vstd::string::StringSliceAdditionalSpecFns;
use crate::bytes::append;
use crate::bytes::to_vec;
use crate::bytes::NEWLINE;

verus! {

/// The error number for a file that does not exist.
pub const ENOENT: i32 = 2;

/// The description that goes with the error number `code`.
pub uninterp spec fn errno_desc(code: i32) -> Seq<u8>;

/// The error number `code` as it is shown to a user: its name and its description.
pub uninterp spec fn errno_display(code: i32) -> Seq<u8>;

/// `nix::errno::Errno::from_i32` and `Errno::desc`: the description that
/// the table of the `nix` crate holds for an error number. The text is a
/// function of the number alone; what the text is for a given number is not
/// stated.
#[verifier::external_body]
pub(crate) fn describe(code: i32) -> (r: Vec<u8>)
    ensures
        r@ == errno_desc(code),
{
    nix::errno::Errno::from_i32(code).desc().as_bytes().to_vec()
}

/// `nix::errno::Errno::from_i32` and the `Display` of `Errno`: the name of an
/// error number, a colon and its description. The text is a function of the
/// number alone; what the text is for a given number is not stated.
#[verifier::external_body]
pub(crate) fn display(code: i32) -> (r: Vec<u8>)
    ensures
        r@ == errno_display(code),
{
    format!("{}", nix::errno::Errno::from_i32(code)).into_bytes()
}

/// The line `rash: cd: DIR: DESCRIPTION`.
pub open spec fn cd_failure_spec(dir: Seq<u8>, description: Seq<u8>) -> Seq<u8> {
    "rash: cd: ".spec_bytes() + dir + ": ".spec_bytes() + description + seq![NEWLINE]
}

/// What is said when the directory `dir` could not be entered, for the
/// reason that `description` gives.
pub fn cd_failure_message(dir: &[u8], description: &[u8]) -> (r: Vec<u8>)
    ensures
        r@ == cd_failure_spec(dir@, description@),
{
    let mut out = to_vec("rash: cd: ".as_bytes());
    append(&mut out, dir);
    append(&mut out, ": ".as_bytes());
    append(&mut out, description);
    out.push(NEWLINE);
    out
}

/// The line `rash: wait failed: ERROR`.
pub open spec fn wait_failure_spec(error: Seq<u8>) -> Seq<u8> {
    "rash: wait failed: ".spec_bytes() + error + seq![NEWLINE]
}

/// What is said when waiting for a child failed with `error`.
pub fn wait_failure_message(error: &[u8]) -> (r: Vec<u8>)
    ensures
        r@ == wait_failure_spec(error@),
{
    let mut out = to_vec("rash: wait failed: ".as_bytes());
    append(&mut out, error);
    out.push(NEWLINE);
    out
}

/// The line `could not exec: ERROR`.
pub open spec fn exec_failure_spec(error: Seq<u8>) -> Seq<u8> {
    "could not exec: ".spec_bytes() + error + seq![NEWLINE]
}

/// What a child says when no program could be run, for the reason `error`.
pub fn exec_failure_message(error: &[u8]) -> (r: Vec<u8>)
    ensures
        r@ == exec_failure_spec(error@),
{
    let mut out = to_vec("could not exec: ".as_bytes());
    append(&mut out, error);
    out.push(NEWLINE);
    out
}

} // verus!
