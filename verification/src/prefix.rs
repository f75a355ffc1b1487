//! Prefix searches over the trie: the longest word-boundary-aligned match
//! from the start of a probe string, and the list of all such matches.
//!
//! Dictionary keys may embed spaces, so a match is recorded only where the
//! probe text reaches a word boundary: right before a space, or at the end of
//! the probe.

use vstd::prelude::*;

use crate::alphabet::char_2_index;
use crate::alphabet::char_index;
use crate::alphabet::lemma_char_index_bounds;
use crate::alphabet::valid_char;
use crate::alphabet::valid_key;
use crate::alphabet::validate_str;
use crate::trie::reports_first_invalid;
use crate::trie::slot;
use crate::trie::Node;
use crate::trie::Trie;
use crate::trie::TrieError;
use crate::trie::NO_TRANSITION;
use vstd::string::StrSliceExecFns;

verus! {

/// One step-by-step state of the longest-prefix walk, as a function: from
/// node `n`, about to consume `text[i]`, with `(rec_val, rec_off)` the last
/// match recorded at a word boundary (a recording may overwrite an earlier
/// one with an absent value) and `spaces` the number of spaces consumed so
/// far. At the final character the current node's value is returned
/// unconditionally when `rp` is set or no space was consumed; otherwise it is
/// returned only when present, or when exactly one space was consumed; in
/// the remaining case, as when the walk runs off the trie, the last recorded
/// match is returned, absent value meaning no match.
pub open spec fn lcp_rec(
    nodes: Seq<Node>,
    n: int,
    text: Seq<char>,
    i: int,
    rec_val: Option<u32>,
    rec_off: usize,
    spaces: int,
    rp: bool,
) -> Option<(u32, usize)>
    decreases text.len() - i,
{
    if i >= text.len() {
        Some(
            (
                match rec_val {
                    Some(v) => v,
                    None => 0u32,
                },
                rec_off,
            ),
        )
    } else {
        let t = slot(nodes, n, char_index(text[i]));
        if t == NO_TRANSITION {
            match rec_val {
                None => None,
                Some(v) => Some((v, rec_off)),
            }
        } else {
            let spaces2 = spaces + if text[i] == ' ' {
                1int
            } else {
                0int
            };
            if i == text.len() - 1 {
                let v = nodes[t].val;
                if rp || spaces2 == 0 {
                    Some(
                        (
                            match v {
                                Some(x) => x,
                                None => 1u32,
                            },
                            i as usize,
                        ),
                    )
                } else if v is Some {
                    Some((v.unwrap(), i as usize))
                } else if spaces2 == 1 {
                    Some((1u32, i as usize))
                } else {
                    match rec_val {
                        None => None,
                        Some(x) => Some((x, rec_off)),
                    }
                }
            } else {
                let rv = if text[i + 1] == ' ' {
                    nodes[t].val
                } else {
                    rec_val
                };
                let ro = if text[i + 1] == ' ' {
                    i as usize
                } else {
                    rec_off
                };
                lcp_rec(nodes, t, text, i + 1, rv, ro, spaces2, rp)
            }
        }
    }
}

/// The longest word-boundary-aligned dictionary match from the start of
/// `text`: the walk of `lcp_rec` started at the root.
pub open spec fn lcp_spec(nodes: Seq<Node>, text: Seq<char>, rp: bool) -> Option<(u32, usize)> {
    lcp_rec(nodes, 0, text, 0, None, 0usize, 0, rp)
}

/// All word-boundary-aligned matches from the start of `text`, in order of
/// increasing end offset, stopping at the first missing transition.
pub open spec fn cps_rec(
    nodes: Seq<Node>,
    n: int,
    text: Seq<char>,
    i: int,
    acc: Seq<(u32, usize)>,
) -> Seq<(u32, usize)>
    decreases text.len() - i,
{
    if i >= text.len() {
        acc
    } else {
        let t = slot(nodes, n, char_index(text[i]));
        if t == NO_TRANSITION {
            acc
        } else {
            let acc2 = if nodes[t].val is Some && (i == text.len() - 1 || text[i + 1] == ' ') {
                acc.push((nodes[t].val.unwrap(), i as usize))
            } else {
                acc
            };
            cps_rec(nodes, t, text, i + 1, acc2)
        }
    }
}

/// All word-boundary-aligned matches of prefixes of `text`.
pub open spec fn cps_spec(nodes: Seq<Node>, text: Seq<char>) -> Seq<(u32, usize)> {
    cps_rec(nodes, 0, text, 0, Seq::empty())
}

impl Trie {
    /// Longest key match from the beginning of `string`, aligned to word
    /// boundaries of the probe, with its inclusive end offset.
    /// `return_prefix` makes the search also accept the whole probe as a
    /// match when it is merely a prefix of some key. The result is a pure
    /// function of the trie and the arguments, and the trie is not changed,
    /// so repeated calls on unchanged state return the same value.
    pub fn longest_common_prefix_search(&self, string: &str, return_prefix: bool) -> (r: Result<
        Option<(u32, usize)>,
        TrieError,
    >)
        requires
            self.wf(),
        ensures
            match r {
                Ok(v) => {
                    &&& valid_key(string@)
                    &&& v == lcp_spec(self.nodes@, string@, return_prefix)
                    &&& match v {
                        Some(p) => string@.len() > 0 ==> p.1 < string@.len(),
                        None => true,
                    }
                },
                Err(e) => !valid_key(string@) && reports_first_invalid(e, string@),
            },
    {
        let n = match validate_str(string) {
            Ok(n) => n,
            Err(c) => {
                return Err(TrieError::InvalidCharacter(c));
            },
        };
        let mut node_pos: usize = 0;
        let mut value: Option<u32> = None;
        let mut offset: usize = 0;
        let mut spaces: usize = 0;
        let mut i: usize = 0;
        while i < n
            invariant
                self.wf(),
                valid_key(string@),
                n == string@.len(),
                i <= n,
                node_pos < self.nodes@.len(),
                spaces <= i,
                offset < n || offset == 0,
                value is Some ==> offset < n,
                lcp_rec(
                    self.nodes@,
                    node_pos as int,
                    string@,
                    i as int,
                    value,
                    offset,
                    spaces as int,
                    return_prefix,
                ) == lcp_spec(self.nodes@, string@, return_prefix),
            decreases n - i,
        {
            let c = string.get_char(i);
            proof {
                assert(valid_char(string@[i as int]));
                lemma_char_index_bounds(c);
            }
            let ci = char_2_index(c).unwrap();
            let t = self.transition(node_pos, ci);
            if t == NO_TRANSITION {
                return Ok(
                    match value {
                        None => None,
                        Some(v) => Some((v, offset)),
                    },
                );
            }
            let spaces2 = if c == ' ' {
                spaces + 1
            } else {
                spaces
            };
            if i == n - 1 {
                let v = self.nodes[t as usize].val;
                if return_prefix || spaces2 == 0 {
                    return Ok(
                        Some(
                            (
                                match v {
                                    Some(x) => x,
                                    None => 1u32,
                                },
                                i,
                            ),
                        ),
                    );
                } else if v.is_some() {
                    return Ok(Some((v.unwrap(), i)));
                } else if spaces2 == 1 {
                    return Ok(Some((1u32, i)));
                } else {
                    return Ok(
                        match value {
                            None => None,
                            Some(x) => Some((x, offset)),
                        },
                    );
                }
            }
            if string.get_char(i + 1) == ' ' {
                value = self.nodes[t as usize].val;
                offset = i;
            }
            node_pos = t as usize;
            spaces = spaces2;
            i = i + 1;
        }
        Ok(
            Some(
                (
                    match value {
                        None => 0u32,
                        Some(v) => v,
                    },
                    offset,
                ),
            ),
        )
    }

    /// Every word-boundary-aligned key match of a prefix of `string`, with
    /// its inclusive end offset, ordered by increasing end offset.
    pub fn common_prefix_search(&self, string: &str) -> (r: Result<
        Vec<(u32, usize)>,
        TrieError,
    >)
        requires
            self.wf(),
        ensures
            match r {
                Ok(v) => valid_key(string@) && v@ == cps_spec(self.nodes@, string@),
                Err(e) => !valid_key(string@) && reports_first_invalid(e, string@),
            },
    {
        let n = match validate_str(string) {
            Ok(n) => n,
            Err(c) => {
                return Err(TrieError::InvalidCharacter(c));
            },
        };
        let mut results: Vec<(u32, usize)> = Vec::new();
        let mut node_pos: usize = 0;
        let mut i: usize = 0;
        while i < n
            invariant
                self.wf(),
                valid_key(string@),
                n == string@.len(),
                i <= n,
                node_pos < self.nodes@.len(),
                cps_rec(self.nodes@, node_pos as int, string@, i as int, results@) == cps_spec(
                    self.nodes@,
                    string@,
                ),
            decreases n - i,
        {
            let c = string.get_char(i);
            proof {
                assert(valid_char(string@[i as int]));
                lemma_char_index_bounds(c);
            }
            let ci = char_2_index(c).unwrap();
            let t = self.transition(node_pos, ci);
            if t == NO_TRANSITION {
                return Ok(results);
            }
            let v = self.nodes[t as usize].val;
            if v.is_some() {
                if i == n - 1 {
                    results.push((v.unwrap(), i));
                } else if string.get_char(i + 1) == ' ' {
                    results.push((v.unwrap(), i));
                }
            }
            node_pos = t as usize;
            i = i + 1;
        }
        Ok(results)
    }
}

} // verus!
