//! Byte-level text helpers: decimal numbers and ASCII strings.
use vstd::prelude::*;

verus! {

/// Decimal digits of `n`, most significant first.
pub open spec fn dec(n: nat) -> Seq<u8>
    decreases n,
{
    if n < 10 {
        seq![(48 + n) as u8]
    } else {
        dec(n / 10).push((48 + n % 10) as u8)
    }
}

/// The characters of ASCII bytes.
pub open spec fn chars_of(b: Seq<u8>) -> Seq<char> {
    b.map_values(|x: u8| x as char)
}

/// Every byte is ASCII.
pub open spec fn all_ascii(b: Seq<u8>) -> bool {
    forall|i: int| 0 <= i < b.len() ==> #[trigger] b[i] < 128
}

pub proof fn lemma_dec_ascii(n: nat)
    ensures
        all_ascii(dec(n)),
        dec(n).len() >= 1,
    decreases n,
{
    if n >= 10 {
        lemma_dec_ascii(n / 10);
    }
}

pub proof fn lemma_ascii_concat(a: Seq<u8>, b: Seq<u8>)
    requires
        all_ascii(a),
        all_ascii(b),
    ensures
        all_ascii(a + b),
{
    assert forall|i: int| 0 <= i < (a + b).len() implies #[trigger] (a + b)[i] < 128 by {
        if i < a.len() {
            assert((a + b)[i] == a[i]);
        } else {
            assert((a + b)[i] == b[i - a.len()]);
        }
    }
}

/// Do two byte strings agree?
pub fn bytes_eq(a: &[u8], b: &[u8]) -> (r: bool)
    ensures
        r == (a@ == b@),
{
    if a.len() != b.len() {
        return false;
    }
    let mut i: usize = 0;
    while i < a.len()
        invariant
            a@.len() == b@.len(),
            0 <= i <= a@.len(),
            forall|j: int| 0 <= j < i ==> a@[j] == b@[j],
        decreases a@.len() - i,
    {
        if a[i] != b[i] {
            return false;
        }
        i = i + 1;
    }
    proof {
        assert(a@ =~= b@);
    }
    true
}

/// Append the decimal digits of `n` to `v`.
pub fn push_decimal(v: &mut Vec<u8>, n: u64)
    ensures
        final(v)@ == old(v)@ + dec(n as nat),
    decreases n,
{
    if n >= 10 {
        push_decimal(v, n / 10);
    }
    v.push(48 + (n % 10) as u8);
    proof {
        assert(dec(n as nat) == if n < 10 {
            seq![(48 + n) as u8]
        } else {
            dec((n / 10) as nat).push((48 + n % 10) as u8)
        });
    }
}

/// Decimal text of an integer, with a leading `-` when negative.
pub open spec fn int_text(x: int) -> Seq<u8> {
    if x < 0 {
        seq![45u8] + dec((-x) as nat)
    } else {
        dec(x as nat)
    }
}

/// Decimal text of `x`, with a leading `-` when negative.
pub fn int_bytes(x: i64) -> (r: Vec<u8>)
    ensures
        r@ == int_text(x as int),
{
    let mut v: Vec<u8> = Vec::new();
    if x < 0 {
        v.push(45);
        let m: u64 = (-(x as i128)) as u64;
        push_decimal(&mut v, m);
        proof {
            assert(v@ =~= seq![45u8] + dec((-x) as nat));
        }
    } else {
        push_decimal(&mut v, x as u64);
        proof {
            assert(v@ =~= dec(x as nat));
        }
    }
    v
}

/// Append the bytes of `s` to `v`.
pub fn push_all(v: &mut Vec<u8>, s: &[u8])
    ensures
        final(v)@ == old(v)@ + s@,
{
    let mut i: usize = 0;
    while i < s.len()
        invariant
            0 <= i <= s@.len(),
            v@ == old(v)@ + s@.subrange(0, i as int),
        decreases s@.len() - i,
    {
        v.push(s[i]);
        i = i + 1;
        proof {
            assert(s@.subrange(0, i as int) == s@.subrange(0, i - 1).push(s@[i - 1]));
        }
    }
    proof {
        assert(s@.subrange(0, s@.len() as int) == s@);
    }
}

/// The string of UTF-8 `bytes`. Calls `String::from_utf8` (the empty string
/// for bytes that are not UTF-8); for bytes that are all ASCII, trusted to give
/// the characters of those bytes in order. Of other bytes nothing is stated.
#[verifier::external_body]
pub fn ascii_string(bytes: Vec<u8>) -> (r: String)
    ensures
        all_ascii(bytes@) ==> r@ == chars_of(bytes@),
{
    String::from_utf8(bytes).unwrap_or_default()
}

/// Bytes of the UTF-8 character that starts with byte `b` (one for a byte that
/// starts none).
pub open spec fn utf8_width(b: u8) -> int {
    if b >= 0xF0 {
        4
    } else if b >= 0xE0 {
        3
    } else if b >= 0xC0 {
        2
    } else {
        1
    }
}

/// The bytes of the character at `i` of `t` (cut at the end of `t`).
pub open spec fn char_at(t: Seq<u8>, i: int) -> Seq<u8> {
    let e = if i + utf8_width(t[i]) < t.len() {
        i + utf8_width(t[i])
    } else {
        t.len() as int
    };
    t.subrange(i, e)
}

/// The bytes of the character at `i` of `t`.
pub fn char_bytes(t: &[u8], i: usize) -> (r: Vec<u8>)
    requires
        i < t@.len(),
    ensures
        r@ == char_at(t@, i as int),
{
    let b = t[i];
    let w: usize = if b >= 0xF0 {
        4
    } else if b >= 0xE0 {
        3
    } else if b >= 0xC0 {
        2
    } else {
        1
    };
    let e = if w < t.len() - i {
        i + w
    } else {
        t.len()
    };
    let mut v: Vec<u8> = Vec::new();
    let mut k = i;
    while k < e
        invariant
            i <= k <= e,
            e <= t@.len(),
            v@ == t@.subrange(i as int, k as int),
        decreases e - k,
    {
        v.push(t[k]);
        k = k + 1;
        proof {
            assert(t@.subrange(i as int, k as int) == t@.subrange(i as int, k - 1).push(t@[k - 1]));
        }
    }
    v
}

} // verus!
