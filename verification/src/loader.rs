//! Segmentation dictionary loader and lookup.
//!
//! An external source supplies raw text lines. For each line the first
//! tab-delimited field is kept, stripped to alphanumeric and space
//! characters, and lowercased. A field with an internal space yields an
//! entry: the first space is removed and the concatenated key is inserted
//! with the removed space's offset as its value. `word_segmentation` then
//! turns a concatenated word back into a spacing suggestion.

use vstd::prelude::*;

use crate::alphabet::valid_char;
use crate::alphabet::valid_key;
use crate::alphabet::validate_str;
use crate::tokenizer::Token;
use crate::trie::canon_val;
use crate::trie::reports_first_invalid;
use crate::trie::walk_val;
use crate::trie::Node;
use crate::trie::Trie;
use crate::trie::TrieError;
use crate::trie::NO_TRANSITION;
use crate::trie::SYNONYM_BASE;
use vstd::string::StrSliceExecFns;
use vstd::string::StringExecFns;

verus! {

/// Relies on String::push: appends the given character to the end of the
/// string.
pub assume_specification[ String::push ](s: &mut String, c: char)
    ensures
        final(s)@ == old(s)@.push(c),
;

/// The lowercase form of an ASCII uppercase letter; any other character is
/// left as it is.
pub open spec fn lower_char_spec(c: char) -> char {
    if 65 <= c as int && c as int <= 90 {
        ((c as int + 32) as u8) as char
    } else {
        c
    }
}

/// A character the loader keeps from a field: one the alphabet accepts, or
/// an ASCII uppercase letter (kept in lowered form).
pub open spec fn kept_char(c: char) -> bool {
    valid_char(c) || (65 <= c as int && c as int <= 90)
}

/// The cleaned first field of a line, accumulated left to right: characters
/// up to the first tab, kept only when `kept_char` accepts them, lowercased.
pub open spec fn clean_rec(line: Seq<char>, i: int, acc: Seq<char>) -> Seq<char>
    decreases line.len() - i,
{
    if i >= line.len() {
        acc
    } else if line[i] == '\t' {
        acc
    } else {
        let acc2 = if kept_char(line[i]) {
            acc.push(lower_char_spec(line[i]))
        } else {
            acc
        };
        clean_rec(line, i + 1, acc2)
    }
}

/// The cleaned first field of a line.
pub open spec fn clean_spec(line: Seq<char>) -> Seq<char> {
    clean_rec(line, 0, Seq::empty())
}

/// Index of the first space of `s` at or after `i`; the length when there is
/// none.
pub open spec fn first_space(s: Seq<char>, i: int) -> int
    decreases s.len() - i,
{
    if i >= s.len() {
        i
    } else if s[i] == ' ' {
        i
    } else {
        first_space(s, i + 1)
    }
}

/// The entry a line contributes: when the cleaned field's first space is
/// internal (neither leading nor trailing) and its offset is in the plain
/// payload range, the key with that space removed, and the offset as the
/// value. Any other line contributes nothing.
pub open spec fn seg_entry(line: Seq<char>) -> Option<(Seq<char>, u32)> {
    let f = clean_spec(line);
    let k = first_space(f, 0);
    if 0 < k && k + 1 < f.len() && k < SYNONYM_BASE {
        Some((f.remove(k), k as u32))
    } else {
        None
    }
}

/// The dictionary after loading the lines from `j` on, each contributing
/// its entry in order.
pub open spec fn load_rec(m: Map<Seq<char>, u32>, lines: Seq<Seq<char>>, j: int) -> Map<
    Seq<char>,
    u32,
>
    decreases lines.len() - j,
{
    if j >= lines.len() {
        m
    } else {
        let m2 = match seg_entry(lines[j]) {
            Some((k, v)) => m.insert(k, v),
            None => m,
        };
        load_rec(m2, lines, j + 1)
    }
}

/// Total character count of the lines from `j` on.
pub open spec fn total_chars(lines: Seq<Seq<char>>, j: int) -> nat
    decreases lines.len() - j,
{
    if j >= lines.len() {
        0
    } else {
        lines[j].len() + total_chars(lines, j + 1)
    }
}

/// The cleaned field only holds accepted characters and is no longer than
/// the line.
proof fn lemma_clean_ok(line: Seq<char>, i: int, acc: Seq<char>)
    requires
        0 <= i,
        valid_key(acc),
        acc.len() <= i,
    ensures
        valid_key(clean_rec(line, i, acc)),
        clean_rec(line, i, acc).len() <= acc.len() + (if line.len() >= i {
            line.len() - i
        } else {
            0
        }),
    decreases line.len() - i,
{
    if i < line.len() && line[i] != '\t' {
        let c = line[i];
        let acc2 = if kept_char(c) {
            acc.push(lower_char_spec(c))
        } else {
            acc
        };
        if kept_char(c) {
            assert(valid_char(lower_char_spec(c)));
        }
        lemma_clean_ok(line, i + 1, acc2);
    }
}

/// The suggestion a stored offset produces for a concatenated word: the word
/// with one space reinserted at the offset.
pub open spec fn reinserted(text: Seq<char>, k: int) -> Seq<char> {
    text.subrange(0, k) + seq![' '] + text.subrange(k, text.len() as int)
}

/// The spacing suggestion for `text`: when the exact search hits a plain
/// value that is a proper internal offset of `text`, a token whose single
/// synonym is `text` with a space reinserted at that offset.
pub open spec fn word_seg_spec(nodes: Seq<Node>, text: Seq<char>) -> Option<crate::tokenizer::TokenV> {
    match walk_val(nodes, text) {
        Some(v) => if 0 < v < text.len() && v < SYNONYM_BASE {
            Some(
                crate::tokenizer::TokenV {
                    value: text,
                    synonyms: seq![reinserted(text, v as int)],
                    is_stopword: false,
                },
            )
        } else {
            None
        },
        None => None,
    }
}

/// The exec mirror of `clean_rec`: the cleaned first field of one line.
fn clean_field(line: &str) -> (r: String)
    ensures
        r@ == clean_spec(line@),
        valid_key(r@),
        r@.len() <= line@.len(),
{
    let n = line.unicode_len();
    let mut r = String::new();
    let mut i: usize = 0;
    while i < n
        invariant
            n == line@.len(),
            i <= n,
            valid_key(r@),
            r@.len() <= i,
            clean_rec(line@, i as int, r@) == clean_spec(line@),
        decreases n - i,
    {
        let c = line.get_char(i);
        if c == '\t' {
            return r;
        }
        let u = c as u32;
        if u == 32 || (48 <= u && u <= 57) || (97 <= u && u <= 122) {
            r.push(c);
        } else if 65 <= u && u <= 90 {
            let lowered = ((u + 32) as u8) as char;
            proof {
                assert(lowered == lower_char_spec(c));
                assert(valid_char(lowered));
            }
            r.push(lowered);
        }
        i = i + 1;
    }
    r
}

/// The exec mirror of `first_space`.
fn find_first_space(s: &str, n: usize) -> (r: usize)
    requires
        n == s@.len(),
    ensures
        r as int == first_space(s@, 0),
        r <= n,
{
    let mut i: usize = 0;
    while i < n
        invariant
            n == s@.len(),
            i <= n,
            first_space(s@, i as int) == first_space(s@, 0),
        decreases n - i,
    {
        if s.get_char(i) == ' ' {
            return i;
        }
        i = i + 1;
    }
    n
}

impl Trie {
    /// Loads a segmentation dictionary from raw lines: each line's cleaned
    /// first field with an internal space becomes an entry mapping the
    /// concatenated key to the removed space's offset; every other line is
    /// skipped.
    pub fn insert_segmentation_dict(&mut self, lines: &Vec<String>)
        requires
            old(self).wf(),
            old(self).nodes@.len() + total_chars(lines.deep_view(), 0) <= NO_TRANSITION,
        ensures
            final(self).wf(),
            final(self).dict() == load_rec(old(self).dict(), lines.deep_view(), 0),
            final(self).syn_table() == old(self).syn_table(),
    {
        let ghost all = lines.deep_view();
        let mut j: usize = 0;
        while j < lines.len()
            invariant
                self.wf(),
                j <= all.len(),
                all == lines.deep_view(),
                all.len() == lines@.len(),
                self.nodes@.len() + total_chars(all, j as int) <= NO_TRANSITION,
                load_rec(self.dict(), all, j as int) == load_rec(old(self).dict(), all, 0),
                self.syn_table() == old(self).syn_table(),
            decreases all.len() - j,
        {
            let line: &String = &lines[j];
            proof {
                assert(all[j as int] == lines@[j as int]@);
            }
            let f = clean_field(line.as_str());
            let fs = f.as_str();
            let flen = fs.unicode_len();
            let k = find_first_space(fs, flen);
            if 0 < k && k < 4000000000 && k + 1 < flen {
                proof {
                    crate::tokenizer::lemma_valid_is_ascii(fs);
                }
                let key = crate::tokenizer::substr(fs, 0, k).concat(
                    fs.substring_ascii(k + 1, flen),
                );
                proof {
                    assert(key@ =~= f@.remove(k as int));
                    assert(valid_key(key@)) by {
                        assert(forall|i: int|
                            0 <= i < key@.len() ==> #[trigger] key@[i] == f@[
                                if i < k { i } else { i + 1 }]);
                    }
                    assert(seg_entry(all[j as int]) == Some((key@, k as u32)));
                    assert(key@.len() < all[j as int].len());
                }
                let res = self.insert(key.as_str(), Some(k as u32));
                proof {
                    assert(res is Ok);
                    assert(canon_val(Some(k as u32)) == Some(k as u32));
                }
            }
            j = j + 1;
        }
    }

    /// The spacing suggestion for a concatenated word: on an exact hit whose
    /// value is a proper internal offset, a token whose single synonym is
    /// `text` with a space reinserted at that offset; `None` otherwise.
    /// Fails exactly when the alphabet rejects a character of `text`.
    pub fn word_segmentation(&self, text: &str) -> (r: Result<Option<Token>, TrieError>)
        requires
            self.wf(),
        ensures
            match r {
                Ok(t) => valid_key(text@) && (match t {
                    Some(tok) => word_seg_spec(self.nodes@, text@) == Some(tok@),
                    None => word_seg_spec(self.nodes@, text@) is None,
                }),
                Err(e) => !valid_key(text@) && reports_first_invalid(e, text@),
            },
    {
        let n = match validate_str(text) {
            Ok(n) => n,
            Err(c) => {
                return Err(TrieError::InvalidCharacter(c));
            },
        };
        let v = match self.search(text) {
            Ok(v) => v,
            Err(_) => {
                proof {
                    assert(false);
                }
                None
            },
        };
        match v {
            Some(k32) => {
                if 0 < k32 && (k32 as usize) < n && k32 < SYNONYM_BASE {
                    let k = k32 as usize;
                    proof {
                        crate::tokenizer::lemma_valid_is_ascii(text);
                        reveal_strlit(" ");
                    }
                    let suggestion = crate::tokenizer::substr(text, 0, k).concat(" ").concat(
                        text.substring_ascii(k, n),
                    );
                    proof {
                        assert(" "@ =~= seq![' ']);
                        assert(suggestion@ =~= reinserted(text@, k as int));
                    }
                    let mut syns: Vec<String> = Vec::new();
                    syns.push(suggestion);
                    let tok = Token { value: text.to_owned(), synonyms: syns, is_stopword: false };
                    proof {
                        assert(tok@.synonyms =~= seq![reinserted(text@, k32 as int)]);
                    }
                    Ok(Some(tok))
                } else {
                    Ok(None)
                }
            },
            None => Ok(None),
        }
    }
}

} // verus!
