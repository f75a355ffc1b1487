//! The 37-symbol alphabet: space, the ten digits and the twenty-six lowercase
//! letters. Every trie operation maps each character of its input through this
//! table; any other character is rejected.

use vstd::prelude::*;
use vstd::string::StrSliceExecFns;

verus! {

/// Number of distinct symbols the trie can transition on.
pub const ALPHABET_SIZE: usize = 37;

/// A character the alphabet accepts: space, '0'..='9' or 'a'..='z'.
pub open spec fn valid_char(c: char) -> bool {
    c as int == 32 || (48 <= c as int && c as int <= 57) || (97 <= c as int && c as int <= 122)
}

/// Symbol index of an accepted character: space is 0, digits are 1..=10,
/// lowercase letters are 11..=36.
pub open spec fn char_index(c: char) -> int
    recommends
        valid_char(c),
{
    if c as int == 32 {
        0
    } else if 48 <= c as int && c as int <= 57 {
        c as int - 47
    } else {
        c as int - 86
    }
}

/// Every character of the sequence is accepted by the alphabet.
pub open spec fn valid_key(s: Seq<char>) -> bool {
    forall|i: int| 0 <= i < s.len() ==> valid_char(#[trigger] s[i])
}

/// The first `n` characters of the sequence are accepted by the alphabet.
pub open spec fn valid_upto(s: Seq<char>, n: int) -> bool {
    forall|i: int| 0 <= i < n ==> valid_char(#[trigger] s[i])
}

/// Symbol indices of accepted characters stay below the alphabet size.
pub proof fn lemma_char_index_bounds(c: char)
    requires
        valid_char(c),
    ensures
        0 <= char_index(c) < 37,
{
}

/// Two accepted characters with the same symbol index are the same character.
pub proof fn lemma_char_index_injective(a: char, b: char)
    requires
        valid_char(a),
        valid_char(b),
        char_index(a) == char_index(b),
    ensures
        a == b,
{
    assert(a as int == b as int);
}

/// `i` is the position of the first character of `s` the alphabet rejects.
pub open spec fn is_first_invalid(s: Seq<char>, i: int) -> bool {
    0 <= i < s.len() && !valid_char(s[i]) && valid_upto(s, i)
}

/// Checks every character of `string` against the alphabet. Returns the
/// length on success; otherwise the first rejected character.
pub fn validate_str(string: &str) -> (r: Result<usize, char>)
    ensures
        match r {
            Ok(n) => valid_key(string@) && n == string@.len(),
            Err(c) => !valid_key(string@) && exists|i: int|
                is_first_invalid(string@, i) && c == string@[i],
        },
{
    let n = string.unicode_len();
    let mut i: usize = 0;
    while i < n
        invariant
            n == string@.len(),
            i <= n,
            valid_upto(string@, i as int),
        decreases n - i,
    {
        let c = string.get_char(i);
        if char_2_index(c).is_none() {
            proof {
                assert(is_first_invalid(string@, i as int));
            }
            return Err(c);
        }
        i = i + 1;
    }
    Ok(n)
}

/// Maps a character to its symbol index, or `None` when the alphabet rejects
/// it.
pub fn char_2_index(c: char) -> (r: Option<usize>)
    ensures
        match r {
            Some(i) => valid_char(c) && i == char_index(c),
            None => !valid_char(c),
        },
{
    let u = c as u32;
    if u == 32 {
        Some(0)
    } else if 48 <= u && u <= 57 {
        Some((u - 47) as usize)
    } else if 97 <= u && u <= 122 {
        Some((u - 86) as usize)
    } else {
        None
    }
}

} // verus!
