//! Buffer sizing for batched command transfers.

use vstd::prelude::*;
use crate::compat::util::cmd_buffer_size;

verus! {

/// The size of the buffer that holds one batch of `num_commands` commands of
/// at most `max_cmd_len` bytes each.
pub fn calculate_cmd_buffer_size(num_commands: usize, max_cmd_len: usize) -> (size: usize)
    requires
        max_cmd_len < usize::MAX,
        cmd_buffer_size(num_commands as int, max_cmd_len as int) <= usize::MAX,
    ensures
        size == cmd_buffer_size(num_commands as int, max_cmd_len as int),
{
    crate::compat::util::calculate_cmd_buffer_size(num_commands, max_cmd_len)
}

pub const ERROR_STRING_BUFFER_SIZE: usize = 768;

} // verus!
