//! Selection of the driver's operating mode from which command-line
//! arguments were supplied.

use vstd::prelude::*;

verus! {

/// How the splice driver was invoked.
#[derive(Clone, Copy, PartialEq, Eq, Structural, Debug)]
pub enum Mode {
    Single,
    Batch,
    Unspecified,
}

/// Picks the operating mode from which arguments are present: any batch
/// folder selects batch mode; otherwise any single-file argument selects
/// single mode; otherwise no mode was requested.
pub fn get_mode(
    has_reference_file: bool,
    has_modified_file: bool,
    has_output_file: bool,
    has_reference_folder: bool,
    has_modified_folder: bool,
    has_output_folder: bool,
) -> (m: Mode)
    ensures
        m == (if has_reference_folder || has_modified_folder || has_output_folder {
            Mode::Batch
        } else if has_reference_file || has_modified_file || has_output_file {
            Mode::Single
        } else {
            Mode::Unspecified
        }),
{
    if has_reference_folder || has_modified_folder || has_output_folder {
        Mode::Batch
    } else if has_reference_file || has_modified_file || has_output_file {
        Mode::Single
    } else {
        Mode::Unspecified
    }
}

} // verus!
