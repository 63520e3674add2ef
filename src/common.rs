//! Messages between the sessions of the front end.
use vstd::prelude::*;
use std::path::PathBuf;

verus! {

#[verifier::external_type_specification]
#[verifier::external_body]
pub struct ExPathBuf(PathBuf);

/// Identifies one open session (a log window).
pub type WindowId = usize;

#[derive(Debug)]
pub enum GorlMsg {
    OpenLogWindow,
    CloseLogWindow(WindowId),
    OpenFileIn(WindowId, PathBuf),
}

} // verus!
