pub mod catalog;
pub mod codec;
pub mod extract;
pub mod format;
pub mod generate;
pub mod lex;
pub mod store;
pub mod sync;
pub mod text;
pub mod types;

use vstd::prelude::*;

verus! {

/// Whitespace stripped from the ends of keys and values: the characters of
/// Unicode's White_Space property, the set `str::trim` removes.
pub open spec fn is_space(c: char) -> bool {
    let n = c as u32;
    n == 0x09 || n == 0x0A || n == 0x0B || n == 0x0C || n == 0x0D || n == 0x20 || n == 0x85 || n
        == 0xA0 || n == 0x1680 || (0x2000 <= n && n <= 0x200A) || n == 0x2028 || n == 0x2029 || n
        == 0x202F || n == 0x205F || n == 0x3000
}

} // verus!
