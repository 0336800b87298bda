//! Reading labeled positions for evaluation tuning: one record per line, such as
//! `{"fen": "<seq![102u8, 101u8, 110u8]>", "result": 1.0}`.
use vstd::prelude::*;
use crate::uci::{find_from, find_from_exec, slice_bytes, trimmed, trimmed_exec};

verus! {

/// First index from `i` on whose byte is neither `:` nor a space.
pub open spec fn skip_colons(b: Seq<u8>, i: int) -> int
    decreases b.len() - i,
{
    if 0 <= i < b.len() && (b[i] == 58 || b[i] == 32) {
        skip_colons(b, i + 1)
    } else {
        i
    }
}

/// First index from `i` on whose byte is not a double quote.
pub open spec fn skip_quotes(b: Seq<u8>, i: int) -> int
    decreases b.len() - i,
{
    if 0 <= i < b.len() && b[i] == 34 {
        skip_quotes(b, i + 1)
    } else {
        i
    }
}

/// First index from `i` on holding `c1` or `c2`, or the end.
pub open spec fn until_either(b: Seq<u8>, i: int, c1: u8, c2: u8) -> int
    decreases b.len() - i,
{
    if 0 <= i < b.len() && b[i] != c1 && b[i] != c2 {
        until_either(b, i + 1, c1, c2)
    } else {
        i
    }
}

/// Where the value of the field `"key"` starts: after the quoted key and any
/// colons and spaces.
pub open spec fn field_value(b: Seq<u8>, key: Seq<u8>) -> Option<int> {
    match find_from(b, seq![34u8] + key + seq![34u8], 0) {
        Some(i) => Some(skip_colons(b, i + key.len() + 2)),
        None => None,
    }
}

/// The FEN of a record: the `fen` value without its opening quotes, up to the
/// next quote.
pub open spec fn record_fen(b: Seq<u8>) -> Option<Seq<u8>> {
    match field_value(b, seq![102u8, 101u8, 110u8]) {
        Some(s) => {
            let j = skip_quotes(b, s);
            Some(b.subrange(j, until_either(b, j, 34, 34)))
        },
        None => None,
    }
}

/// The result text of a record: the `result` value up to the next `,` or `}`,
/// trimmed.
pub open spec fn record_result(b: Seq<u8>) -> Option<Seq<u8>> {
    match field_value(b, seq![114u8, 101u8, 115u8, 117u8, 108u8, 116u8]) {
        Some(s) => Some(trimmed(b, s, until_either(b, s, 44, 125))),
        None => None,
    }
}

fn skip_colons_exec(b: &[u8], i: usize) -> (r: usize)
    requires
        i <= b@.len(),
    ensures
        r == skip_colons(b@, i as int),
        i <= r <= b@.len(),
    decreases b@.len() - i,
{
    if i < b.len() && (b[i] == 58 || b[i] == 32) {
        skip_colons_exec(b, i + 1)
    } else {
        i
    }
}

fn skip_quotes_exec(b: &[u8], i: usize) -> (r: usize)
    requires
        i <= b@.len(),
    ensures
        r == skip_quotes(b@, i as int),
        i <= r <= b@.len(),
    decreases b@.len() - i,
{
    if i < b.len() && b[i] == 34 {
        skip_quotes_exec(b, i + 1)
    } else {
        i
    }
}

fn until_either_exec(b: &[u8], i: usize, c1: u8, c2: u8) -> (r: usize)
    requires
        i <= b@.len(),
    ensures
        r == until_either(b@, i as int, c1, c2),
        i <= r <= b@.len(),
    decreases b@.len() - i,
{
    if i < b.len() && b[i] != c1 && b[i] != c2 {
        until_either_exec(b, i + 1, c1, c2)
    } else {
        i
    }
}

fn field_value_exec(b: &[u8], pat: &[u8], key_len: usize) -> (r: Option<usize>)
    requires
        pat@.len() == key_len + 2,
    ensures
        r matches Some(x) ==> x <= b@.len() && (find_from(b@, pat@, 0) matches Some(i) && x
            == skip_colons(b@, i + key_len + 2)),
        r is None ==> find_from(b@, pat@, 0) is None,
{
    match find_from_exec(b, pat, 0) {
        Some(i) => {
            let n = b.len();
            assert(i + key_len + 2 <= n);
            Some(skip_colons_exec(b, i + key_len + 2))
        },
        None => None,
    }
}

/// The FEN text of a record line, if it has a `fen` field.
pub fn fen_of_record(line: &[u8]) -> (r: Option<Vec<u8>>)
    ensures
        match record_fen(line@) {
            Some(t) => r matches Some(v) && v@ == t,
            None => r is None,
        },
{
    let pat: &[u8] = &[34u8, 102u8, 101u8, 110u8, 34u8];
    proof {
        assert(pat@ == seq![34u8] + seq![102u8, 101u8, 110u8] + seq![34u8]);
    }
    match field_value_exec(line, pat, 3) {
        Some(s) => {
            let j = skip_quotes_exec(line, s);
            let e = until_either_exec(line, j, 34, 34);
            Some(slice_bytes(line, j, e))
        },
        None => None,
    }
}

/// The result text of a record line, if it has a `result` field.
pub fn result_of_record(line: &[u8]) -> (r: Option<Vec<u8>>)
    ensures
        match record_result(line@) {
            Some(t) => r matches Some(v) && v@ == t,
            None => r is None,
        },
{
    let pat: &[u8] = &[34u8, 114u8, 101u8, 115u8, 117u8, 108u8, 116u8, 34u8];
    proof {
        assert(pat@ == seq![34u8] + seq![114u8, 101u8, 115u8, 117u8, 108u8, 116u8] + seq![34u8]);
    }
    match field_value_exec(line, pat, 6) {
        Some(s) => {
            let e = until_either_exec(line, s, 44, 125);
            Some(trimmed_exec(line, s, e))
        },
        None => None,
    }
}

} // verus!
