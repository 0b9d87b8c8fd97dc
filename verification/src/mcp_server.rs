//! Defaults of the MCP tools. The MCP server itself runs outside the library.

use vstd::prelude::*;

verus! {

/// How many elements `eyes_describe_dom` returns unless asked otherwise.
pub fn default_max_elements() -> (r: usize)
    ensures
        r == 5000,
{
    5000
}

} // verus!
