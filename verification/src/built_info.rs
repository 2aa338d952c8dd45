//! Build and version metadata, served by the VERSION command.

use vstd::prelude::*;
use vstd::string::StringSliceAdditionalSpecFns;

use crate::bytes::str_bytes;

verus! {

/// The metadata text, as characters.
pub open spec fn spec_built_info() -> Seq<char> {
    "Version: 0.1.0\nDescription: in-memory key-value server speaking a Redis-style wire protocol"@
}

/// The metadata text, as the bytes the VERSION reply carries.
pub open spec fn spec_built_info_bytes() -> Seq<u8> {
    "Version: 0.1.0\nDescription: in-memory key-value server speaking a Redis-style wire protocol".spec_bytes()
}

/// The version and description of this build, one field per line.
pub fn get_built_info() -> (r: String)
    ensures
        r@ == spec_built_info(),
{
    "Version: 0.1.0\nDescription: in-memory key-value server speaking a Redis-style wire protocol".to_owned()
}

/// The same metadata as bytes, ready to travel as a bulk string.
pub fn built_info_bytes() -> (r: Vec<u8>)
    ensures
        r@ == spec_built_info_bytes(),
{
    str_bytes(
        "Version: 0.1.0\nDescription: in-memory key-value server speaking a Redis-style wire protocol",
    )
}

} // verus!
