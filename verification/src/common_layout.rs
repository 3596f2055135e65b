//! Shared footer hints for the application's screens.

use vstd::prelude::*;

verus! {

/// The footer hint shown beneath every table screen.
pub fn standard_footer() -> (r: String)
    ensures
        r@ == "q:Quit | h:Home | i:Income | b:Bills | l:Ledger"@,
{
    "q:Quit | h:Home | i:Income | b:Bills | l:Ledger".to_owned()
}

/// The footer hint shown beneath read-only detail views; the same as the
/// standard one.
pub fn view_footer() -> (r: String)
    ensures
        r@ == "q:Quit | h:Home | i:Income | b:Bills | l:Ledger"@,
{
    standard_footer()
}

} // verus!
