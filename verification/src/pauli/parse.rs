//! Reading strings of '0' and '1' characters as bits.
use vstd::prelude::*;
use vstd::string::StrSliceExecFns;

use crate::boolean_vector::BooleanVector;

verus! {

/// Whether a character is a binary digit.
pub open spec fn is_bit_char(c: char) -> bool {
    c == '0' || c == '1'
}

/// Whether every character of the string is a binary digit.
pub open spec fn all_bit_chars(s: Seq<char>) -> bool {
    forall|i: int| 0 <= i < s.len() ==> is_bit_char(#[trigger] s[i])
}

/// The bits of a string of binary digits: '1' is true.
pub open spec fn bits_of(s: Seq<char>) -> Seq<bool> {
    Seq::new(s.len(), |i: int| s[i] == '1')
}

/// Whether `c` is the first character of `s` that is not a binary digit.
pub open spec fn first_non_bit(s: Seq<char>, c: char) -> bool {
    exists|k: int|
        0 <= k < s.len() && s[k] == c && !is_bit_char(c) && all_bit_chars(
            #[trigger] s.take(k),
        )
}

/// The bits of the binary digits of a string, skipping every other character.
pub open spec fn kept_bits(s: Seq<char>) -> Seq<bool>
    decreases s.len(),
{
    if s.len() == 0 {
        Seq::empty()
    } else {
        let prev = kept_bits(s.drop_last());
        if s.last() == '1' {
            prev.push(true)
        } else if s.last() == '0' {
            prev.push(false)
        } else {
            prev
        }
    }
}

/// The value of a binary digit, if the character is one.
pub fn to_bit(c: char) -> (r: Option<bool>)
    ensures
        is_bit_char(c) ==> r == Some(c == '1'),
        !is_bit_char(c) ==> r is None,
{
    if c == '0' {
        Some(false)
    } else if c == '1' {
        Some(true)
    } else {
        None
    }
}

/// Read a string of binary digits into a boolean vector; on the first character that
/// is not a binary digit, return that character.
pub fn parse_bits<T: BooleanVector>(s: &str) -> (r: Result<T, char>)
    ensures
        all_bit_chars(s@) ==> (r matches Ok(v) && v.bools() == bits_of(s@)),
        !all_bit_chars(s@) ==> (r matches Err(c) && first_non_bit(s@, c)),
{
    let len = s.unicode_len();
    let mut v = T::new();
    let mut i: usize = 0;
    while i < len
        invariant
            len == s@.len(),
            i <= len,
            all_bit_chars(s@.take(i as int)),
            v.bools() == bits_of(s@.take(i as int)),
        decreases len - i,
    {
        let c = s.get_char(i);
        match to_bit(c) {
            Some(b) => {
                v.push(b);
                proof {
                    assert(s@.take(i + 1) =~= s@.take(i as int).push(c));
                    assert(v.bools() =~= bits_of(s@.take(i + 1)));
                }
            },
            None => {
                proof {
                    assert(first_non_bit(s@, c)) by {
                        assert(s@[i as int] == c);
                    }
                    assert(!all_bit_chars(s@));
                }
                return Err(c);
            },
        }
        i += 1;
    }
    proof {
        assert(s@.take(len as int) =~= s@);
    }
    Ok(v)
}

/// Read the binary digits of a string into a boolean vector, skipping every other
/// character.
pub fn parse_kept_bits<T: BooleanVector>(s: &str) -> (r: T)
    ensures
        r.bools() == kept_bits(s@),
{
    let len = s.unicode_len();
    let mut v = T::new();
    let mut i: usize = 0;
    while i < len
        invariant
            len == s@.len(),
            i <= len,
            v.bools() == kept_bits(s@.take(i as int)),
            v.bools().len() <= i,
        decreases len - i,
    {
        let c = s.get_char(i);
        proof {
            assert(s@.take(i + 1).drop_last() =~= s@.take(i as int));
            assert(s@.take(i + 1).last() == c);
        }
        match to_bit(c) {
            Some(b) => {
                v.push(b);
            },
            None => {},
        }
        i += 1;
    }
    proof {
        assert(s@.take(len as int) =~= s@);
    }
    v
}

/// The one-character string of `c`.
#[verifier::external_body]
pub(crate) fn char_to_string(c: char) -> (r: String)
    ensures
        r@ == seq![c],
{
    c.to_string()
}

} // verus!
