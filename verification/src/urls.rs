use vstd::prelude::*;
use vstd::string::StringExecFns;

use crate::numeral::dec_int;
use crate::numeral::i64_to_dec;

verus! {

/// The list endpoint: the caller's base URL followed by "/items".
pub fn list_items_url(base_url: &str) -> (r: String)
    ensures
        r@ == base_url@ + "/items"@,
{
    let mut s = String::from_str(base_url);
    s.append("/items");
    s
}

/// The per-item endpoint: the base URL followed by "/items/" and the decimal id.
pub fn delete_item_url(base_url: &str, id: i64) -> (r: String)
    ensures
        r@ == base_url@ + "/items/"@ + dec_int(id as int),
{
    let mut s = String::from_str(base_url);
    s.append("/items/");
    let digits = i64_to_dec(id);
    s.append(digits.as_str());
    proof {
        assert(s@ =~= base_url@ + "/items/"@ + dec_int(id as int));
    }
    s
}

} // verus!
