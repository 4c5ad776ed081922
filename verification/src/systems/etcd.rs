//! The etcd adapter: how it reads the values a range request returns.

use vstd::prelude::*;
use vstd::utf8::{decode_utf8, valid_utf8};
use std::str::Utf8Error;
use crate::text::str_from_utf8;

verus! {

/// What a read found: the first value returned, as UTF-8 text, or nothing
/// when no value came back; a first value that is not UTF-8 gives the UTF-8
/// error of `std::str::from_utf8`, which the etcd client reports.
pub fn first_value(values: Vec<Vec<u8>>) -> (r: Result<Option<String>, Utf8Error>)
    ensures
        values@.len() == 0 ==> r is Ok && r->Ok_0 is None,
        values@.len() > 0 && valid_utf8(values@[0]@) ==> (r matches Ok(Some(s)) && s@
            == decode_utf8(values@[0]@)),
        values@.len() > 0 && !valid_utf8(values@[0]@) ==> r is Err,
{
    if values.len() == 0 {
        return Ok(None);
    }
    match str_from_utf8(values[0].as_slice()) {
        Ok(s) => Ok(Some(s.to_owned())),
        Err(e) => Err(e),
    }
}

} // verus!
