//! Diagnostics: which of them are kept.

use vstd::prelude::*;

verus! {

/// Whether captured diagnostics are kept after an exit code. 0, 2 and 3 are
/// outcomes of automation and no defects.
pub fn retain(exit_code: u8) -> (r: bool)
    ensures
        r == !(exit_code == 0 || exit_code == 2 || exit_code == 3),
{
    !matches!(exit_code, 0 | 2 | 3)
}

/// Diagnostics are kept after every exit code but those of automation: what
/// came out well, what failed, and what was blocked.
pub proof fn law_defects_are_kept(exit_code: u8, kept: bool)
    requires
        call_ensures(retain, (exit_code,), kept),
    ensures
        kept <==> !seq![0u8, 2u8, 3u8].contains(exit_code),
{
    let outcomes = seq![0u8, 2u8, 3u8];
    assert(outcomes[0] == 0 && outcomes[1] == 2 && outcomes[2] == 3);
}

} // verus!
