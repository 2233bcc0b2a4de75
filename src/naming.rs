//! Segment file names: the id in decimal, zero-padded to nine digits, then
//! the suffix `.seg`.
use vstd::prelude::*;
use crate::error::WalError;

verus! {

/// Digits of a segment id in its file name, at the least.
pub const SEGMENT_ID_WIDTH: u32 = 9;

/// The file name suffix of a segment, `.seg`.
pub open spec fn suffix() -> Seq<u8> {
    seq![46u8, 115u8, 101u8, 103u8]
}

pub open spec fn is_digit(b: u8) -> bool {
    48 <= b <= 57
}

/// The decimal digits of `n`, zero-padded on the left to `width` digits.
pub open spec fn decimal(n: nat, width: nat) -> Seq<u8>
    decreases n + width,
{
    if n < 10 && width <= 1 {
        seq![(48 + n) as u8]
    } else {
        decimal(n / 10, if width > 0 { (width - 1) as nat } else { 0 }) + seq![(48 + n % 10) as u8]
    }
}

/// The value of a sequence of decimal digits.
pub open spec fn digits_value(s: Seq<u8>) -> nat
    decreases s.len(),
{
    if s.len() == 0 {
        0
    } else {
        digits_value(s.drop_last()) * 10 + (s.last() - 48) as nat
    }
}

/// The file name of segment `id`.
pub open spec fn file_name_spec(id: u32) -> Seq<u8> {
    decimal(id as nat, SEGMENT_ID_WIDTH as nat) + suffix()
}

/// What a directory entry's name says: `Ok(None)` for a name that does not
/// end with the segment suffix, `Ok(Some(id))` for one whose part before
/// the suffix is a decimal number that fits in 32 bits, and
/// `ParseIntFailed` for any other name with the suffix.
pub open spec fn parse_spec(name: Seq<u8>) -> Result<Option<u32>, WalError> {
    if name.len() < 4 || name.subrange(name.len() - 4, name.len() as int) != suffix() {
        Ok(None)
    } else {
        let d = name.subrange(0, name.len() - 4);
        if d.len() > 0 && (forall|i: int| 0 <= i < d.len() ==> is_digit(#[trigger] d[i]))
            && digits_value(d) <= u32::MAX {
            Ok(Some(digits_value(d) as u32))
        } else {
            Err(WalError::ParseIntFailed)
        }
    }
}

fn push_decimal(out: &mut Vec<u8>, n: u32, width: u32)
    ensures
        final(out)@ == old(out)@ + decimal(n as nat, width as nat),
    decreases n + width,
{
    if n < 10 && width <= 1 {
        out.push(48 + n as u8);
    } else {
        let w = if width > 0 {
            width - 1
        } else {
            0
        };
        push_decimal(out, n / 10, w);
        out.push(48 + (n % 10) as u8);
        assert(final(out)@ =~= old(out)@ + decimal(n as nat, width as nat));
    }
}

/// The file name of segment `id`, as bytes.
pub fn segment_file_name(id: u32) -> (r: Vec<u8>)
    ensures
        r@ == file_name_spec(id),
{
    let mut out: Vec<u8> = Vec::new();
    push_decimal(&mut out, id, SEGMENT_ID_WIDTH);
    out.push(46);
    out.push(115);
    out.push(101);
    out.push(103);
    assert(out@ =~= file_name_spec(id));
    out
}

proof fn lemma_digits_prefix(s: Seq<u8>, k: int)
    requires
        0 <= k <= s.len(),
        forall|i: int| 0 <= i < s.len() ==> is_digit(#[trigger] s[i]),
    ensures
        digits_value(s.take(k)) <= digits_value(s),
    decreases s.len(),
{
    if k < s.len() {
        let p = s.drop_last();
        assert(p.take(k) =~= s.take(k));
        assert forall|i: int| 0 <= i < p.len() implies is_digit(#[trigger] p[i]) by {
            assert(p[i] == s[i]);
        }
        lemma_digits_prefix(p, k);
    } else {
        assert(s.take(k) =~= s);
    }
}

/// Reads the segment id out of a directory entry's name: see `parse_spec`.
pub fn parse_segment_file_name(name: &[u8]) -> (r: Result<Option<u32>, WalError>)
    ensures
        r == parse_spec(name@),
{
    let n = name.len();
    if n < 4 || name[n - 4] != 46 || name[n - 3] != 115 || name[n - 2] != 101 || name[n - 1] != 103 {
        proof {
            if n >= 4 {
                let t = name@.subrange(n - 4, n as int);
                assert(t[0] == name@[n - 4] && t[1] == name@[n - 3] && t[2] == name@[n - 2] && t[3]
                    == name@[n - 1]);
                assert(t != suffix()) by {
                    if t == suffix() {
                        assert(suffix()[0] == 46u8);
                        assert(suffix()[1] == 115u8);
                        assert(suffix()[2] == 101u8);
                        assert(suffix()[3] == 103u8);
                    }
                }
            }
        }
        return Ok(None);
    }
    assert(name@.subrange(n - 4, n as int) =~= suffix());
    let ghost d = name@.subrange(0, n - 4);
    let m = n - 4;
    if m == 0 {
        return Err(WalError::ParseIntFailed);
    }
    let mut value: u64 = 0;
    let mut i: usize = 0;
    while i < m
        invariant
            m == d.len(),
            m + 4 == name@.len(),
            m > 0,
            name@.subrange(m as int, m + 4) == suffix(),
            d == name@.subrange(0, m as int),
            i <= m,
            value == digits_value(d.take(i as int)),
            value <= u32::MAX,
            forall|j: int| 0 <= j < i ==> is_digit(#[trigger] d[j]),
        decreases m - i,
    {
        let b = name[i];
        assert(b == d[i as int]);
        if b < 48 || b > 57 {
            assert(!is_digit(d[i as int]));
            return Err(WalError::ParseIntFailed);
        }
        assert(d.take(i + 1).drop_last() =~= d.take(i as int));
        let next = value * 10 + (b - 48) as u64;
        assert(d.take(i + 1).last() == b);
        assert(next == digits_value(d.take(i + 1)));
        if next > 4294967295 {
            proof {
                if forall|j: int| 0 <= j < d.len() ==> is_digit(#[trigger] d[j]) {
                    lemma_digits_prefix(d, i + 1);
                }
            }
            return Err(WalError::ParseIntFailed);
        }
        value = next;
        i = i + 1;
    }
    assert(d.take(m as int) =~= d);
    Ok(Some(value as u32))
}

/// A segment's file name reads back as its id.
pub proof fn lemma_file_name_round_trip(id: u32)
    ensures
        parse_spec(file_name_spec(id)) == Ok::<Option<u32>, WalError>(Some(id)),
{
    let name = file_name_spec(id);
    let d = decimal(id as nat, SEGMENT_ID_WIDTH as nat);
    assert(name.subrange(name.len() - 4, name.len() as int) =~= suffix());
    assert(name.subrange(0, name.len() - 4) =~= d);
    lemma_decimal(id as nat, SEGMENT_ID_WIDTH as nat);
}

/// `decimal` writes digits only, at least one, and they read back as `n`.
pub proof fn lemma_decimal(n: nat, width: nat)
    ensures
        decimal(n, width).len() > 0,
        forall|i: int| 0 <= i < decimal(n, width).len() ==> is_digit(#[trigger] decimal(n, width)[i]),
        digits_value(decimal(n, width)) == n,
    decreases n + width,
{
    if n < 10 && width <= 1 {
        let s = decimal(n, width);
        assert(s == seq![(48 + n) as u8]);
        assert(s.drop_last() =~= Seq::<u8>::empty());
        assert(digits_value(Seq::<u8>::empty()) == 0);
        assert(s.last() == (48 + n) as u8);
        assert(digits_value(s) == digits_value(s.drop_last()) * 10 + (s.last() - 48) as nat);
    } else {
        let w: nat = if width > 0 { (width - 1) as nat } else { 0 };
        lemma_decimal(n / 10, w);
        let s = decimal(n, width);
        assert(s.drop_last() =~= decimal(n / 10, w));
        assert(s.last() == (48 + n % 10) as u8);
        assert((n / 10) * 10 + n % 10 == n);
        assert(digits_value(s) == digits_value(s.drop_last()) * 10 + (s.last() - 48) as nat);
        assert forall|i: int| 0 <= i < s.len() implies is_digit(#[trigger] s[i]) by {
            if i < s.len() - 1 {
                assert(s[i] == decimal(n / 10, w)[i]);
            }
        }
    }
}

} // verus!
