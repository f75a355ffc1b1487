//! Laws of the library, each proved against the contracts of the public
//! operations: what an insert makes of a later search, and what a key the
//! dictionary holds makes of the tokenizer.

use vstd::prelude::*;

use crate::alphabet::valid_key;
use crate::prefix::lcp_rec;
use crate::prefix::lcp_spec;
use crate::tokenizer::fast_token;
use crate::tokenizer::gen_rec;
use crate::tokenizer::gen_spec;
use crate::tokenizer::mat_rec;
use crate::tokenizer::offs_rec;
use crate::tokenizer::offsets_spec;
use crate::tokenizer::plain_tokens_of;
use crate::tokenizer::split_ws;
use crate::tokenizer::resolve_spec;
use crate::tokenizer::split_tokens_spec;
use crate::tokenizer::syn_list;
use crate::tokenizer::token_spec;
use crate::tokenizer::tokenize_spec;
use crate::tokenizer::with_gaps_rec;
use crate::tokenizer::gap_of;
use crate::tokenizer::gaps_spec;
use crate::tokenizer::Candidate;
use crate::tokenizer::TokenV;
use crate::trie::arena_wf;
use crate::trie::canon_val;
use crate::trie::slot;
use crate::trie::walk;
use crate::trie::walk_val;
use crate::trie::walk_val_from;
use crate::trie::Node;
use crate::trie::Trie;
use crate::trie::NO_TRANSITION;
use crate::trie::STOPWORD_TAG;
use crate::trie::SYNONYM_BASE;
use crate::alphabet::char_index;
use crate::alphabet::valid_char;

verus! {

/// Law: inserting a key and then searching for it yields the value,
/// canonicalized — the value itself unless it is the transition sentinel,
/// which is stored as `1`; inserting an absent value clears the entry. The
/// dictionaries are those `insert` relates and `search` reads.
pub proof fn lemma_insert_then_search(
    pre: Map<Seq<char>, u32>,
    post: Map<Seq<char>, u32>,
    k: Seq<char>,
    v: Option<u32>,
)
    requires
        post == (match canon_val(v) {
            Some(x) => pre.insert(k, x),
            None => pre.remove(k),
        }),
    ensures
        v is Some ==> post.contains_key(k) && post[k] == (if v == Some(NO_TRANSITION) {
            1u32
        } else {
            v.unwrap()
        }),
        v is None ==> !post.contains_key(k),
{
}

/// Law: an insert changes no other key — so a key never inserted stays
/// absent, as it is in the empty trie, and searching for it yields nothing.
pub proof fn lemma_insert_leaves_others(
    pre: Map<Seq<char>, u32>,
    post: Map<Seq<char>, u32>,
    k: Seq<char>,
    v: Option<u32>,
    other: Seq<char>,
)
    requires
        post == (match canon_val(v) {
            Some(x) => pre.insert(k, x),
            None => pre.remove(k),
        }),
        other != k,
    ensures
        post.contains_key(other) == pre.contains_key(other),
        post.contains_key(other) ==> post[other] == pre[other],
{
}

/// Law: inserting a key with a synonym set and then searching for it yields
/// a value that decodes to exactly that set. The dictionary and table are
/// those `insert_synonym` relates and `search` reads.
pub proof fn lemma_insert_synonym_then_search(
    pre: Trie,
    post: Trie,
    k: Seq<char>,
    syns: Seq<Seq<char>>,
)
    requires
        pre.syn_table().len() <= 294967293,
        post.dict() == pre.dict().insert(
            k,
            (SYNONYM_BASE as int + pre.syn_table().len() as int) as u32,
        ),
        post.syn_table() == pre.syn_table().push(syns),
    ensures
        post.dict().contains_key(k),
        post.dict()[k] >= SYNONYM_BASE,
        syn_list(post.syn_table(), post.dict()[k]) == syns,
{
    let tag = (SYNONYM_BASE as int + pre.syn_table().len() as int) as u32;
    assert(tag as int - SYNONYM_BASE as int == pre.syn_table().len());
}

/// Law: the longest-prefix search is a function of the trie and its
/// arguments alone, so repeated calls on unchanged state return the same
/// result.
pub proof fn lemma_lcp_idempotent(
    t: Trie,
    text: Seq<char>,
    rp: bool,
    r1: Option<(u32, usize)>,
    r2: Option<(u32, usize)>,
)
    requires
        r1 == lcp_spec(t.nodes@, text, rp),
        r2 == lcp_spec(t.nodes@, text, rp),
    ensures
        r1 == r2,
{
}

/// Law: text without a space tokenizes to exactly one token, whose value is
/// the text itself.
pub proof fn lemma_single_word_token(
    nodes: Seq<Node>,
    syns: Seq<Seq<Seq<char>>>,
    text: Seq<char>,
    rp: bool,
)
    requires
        !text.contains(' '),
    ensures
        tokenize_spec(nodes, syns, text, rp) == seq![fast_token(nodes, syns, text)],
        tokenize_spec(nodes, syns, text, rp).len() == 1,
        tokenize_spec(nodes, syns, text, rp)[0].value == text,
{
}

/// Law: when no anchored search keeps a match and the whole text is no
/// stored key either, tokenizing yields exactly one plain token per
/// whitespace-delimited word — so joining the token values with single
/// spaces reproduces the text with its whitespace collapsed.
pub proof fn lemma_no_match_splits_words(
    nodes: Seq<Node>,
    syns: Seq<Seq<Seq<char>>>,
    text: Seq<char>,
    rp: bool,
)
    requires
        text.contains(' '),
        gen_spec(nodes, text, rp) == Seq::<Candidate>::empty(),
        walk_val(nodes, text) is None,
    ensures
        tokenize_spec(nodes, syns, text, rp) == plain_tokens_of(split_ws(text)),
{
}

/// A longest-prefix walk over a probe that is itself a stored key reaches
/// the end of the probe alive with its value present, so the search returns
/// that value with the probe's last offset, whatever was recorded on the
/// way and whether or not prefixes may be returned.
proof fn lemma_lcp_hit(
    nodes: Seq<Node>,
    text: Seq<char>,
    rp: bool,
    n: int,
    i: int,
    rec_val: Option<u32>,
    rec_off: usize,
    spaces: int,
)
    requires
        arena_wf(nodes),
        valid_key(text),
        0 <= i < text.len(),
        0 <= n < nodes.len(),
        walk_val_from(nodes, n, text.subrange(i, text.len() as int)) is Some,
    ensures
        lcp_rec(nodes, n, text, i, rec_val, rec_off, spaces, rp) == Some(
            (
                walk_val_from(nodes, n, text.subrange(i, text.len() as int)).unwrap(),
                (text.len() - 1) as usize,
            ),
        ),
    decreases text.len() - i,
{
    let sub = text.subrange(i, text.len() as int);
    assert(sub[0] == text[i]);
    assert(valid_char(text[i]));
    let t = slot(nodes, n, char_index(text[i]));
    assert(t != NO_TRANSITION);
    assert(0 <= t < nodes.len());
    let rest = sub.subrange(1, sub.len() as int);
    assert(rest =~= text.subrange(i + 1, text.len() as int));
    if i == text.len() - 1 {
        assert(rest.len() == 0);
        assert(walk(nodes, t, rest) == Some(t));
        assert(nodes[t].val is Some);
    } else {
        let rv = if text[i + 1] == ' ' {
            nodes[t].val
        } else {
            rec_val
        };
        let ro = if text[i + 1] == ' ' {
            i as usize
        } else {
            rec_off
        };
        lemma_lcp_hit(nodes, text, rp, t, i + 1, rv, ro, spaces + (if text[i] == ' ' {
            1int
        } else {
            0int
        }));
    }
}

/// The end offset a longest-prefix search returns always lies inside the
/// probe.
proof fn lemma_lcp_bound(
    nodes: Seq<Node>,
    text: Seq<char>,
    rp: bool,
    n: int,
    i: int,
    rec_val: Option<u32>,
    rec_off: usize,
    spaces: int,
)
    requires
        0 <= i < text.len(),
        rec_val is Some ==> (rec_off as int) < text.len(),
    ensures
        match lcp_rec(nodes, n, text, i, rec_val, rec_off, spaces, rp) {
            Some(p) => (p.1 as int) < text.len(),
            None => true,
        },
    decreases text.len() - i,
{
    let t = slot(nodes, n, char_index(text[i]));
    if t != NO_TRANSITION && i < text.len() - 1 {
        let rv = if text[i + 1] == ' ' {
            nodes[t].val
        } else {
            rec_val
        };
        let ro = if text[i + 1] == ' ' {
            i as usize
        } else {
            rec_off
        };
        lemma_lcp_bound(nodes, text, rp, t, i + 1, rv, ro, spaces + (if text[i] == ' ' {
            1int
        } else {
            0int
        }));
    }
}

/// The accumulated anchor offsets only grow, and every offset added from
/// position `i` on lies in `[i + 1, text.len()]`.
proof fn lemma_offs(text: Seq<char>, i: int, acc: Seq<usize>)
    requires
        0 <= i,
        text.len() <= usize::MAX,
    ensures
        offs_rec(text, i, acc).len() >= acc.len(),
        forall|j: int| 0 <= j < acc.len() ==> #[trigger] offs_rec(text, i, acc)[j] == acc[j],
        forall|j: int|
            acc.len() <= j < offs_rec(text, i, acc).len() ==> i + 1 <= #[trigger] offs_rec(
                text,
                i,
                acc,
            )[j] <= text.len(),
    decreases text.len() - i,
{
    if i < text.len() {
        let acc2 = if text[i] == ' ' {
            acc.push((i + 1) as usize)
        } else {
            acc
        };
        lemma_offs(text, i + 1, acc2);
        let r = offs_rec(text, i, acc);
        assert(r == offs_rec(text, i + 1, acc2));
        assert forall|j: int| acc.len() <= j < r.len() implies i + 1 <= #[trigger] r[j]
            <= text.len() by {
            if j < acc2.len() {
                assert(text[i] == ' ' && j == acc.len());
                assert(r[j] == acc2[j]);
                assert(acc2[j] == (i + 1) as usize);
            } else {
                assert(i + 2 <= r[j] <= text.len());
            }
        }
    }
}

/// Once a kept candidate reaches the last offset of the text, no later
/// anchor can extend past it, so generation keeps nothing more.
proof fn lemma_gen_tail(
    nodes: Seq<Node>,
    text: Seq<char>,
    rp: bool,
    offs: Seq<usize>,
    j: int,
    acc: Seq<Candidate>,
)
    requires
        0 <= j,
        acc.len() > 0,
        acc.last().end as int == text.len() - 1,
        forall|jj: int| j <= jj < offs.len() ==> #[trigger] offs[jj] <= text.len(),
    ensures
        gen_rec(nodes, text, rp, offs, j, acc) == acc,
    decreases offs.len() - j,
{
    if j < offs.len() {
        let off = offs[j];
        let sub = text.subrange(off as int, text.len() as int);
        let w = lcp_spec(nodes, sub, rp);
        if off < text.len() {
            assert(sub.len() > 0);
            lemma_lcp_bound(nodes, sub, rp, 0, 0, None, 0, 0);
            match w {
                Some(p) => {
                    assert(off + p.1 < text.len());
                },
                None => {},
            }
        } else {
            assert(sub.len() == 0);
        }
        lemma_gen_tail(nodes, text, rp, offs, j + 1, acc);
    }
}

/// Law: tokenizing text that is itself a stored dictionary key and holds a
/// space yields exactly one token, built from the key's tagged value: the
/// stopword marker sets the flag, a synonym-range value attaches its
/// synonym set, and any other value gives a plain token.
pub proof fn lemma_exact_key_token(
    nodes: Seq<Node>,
    syns: Seq<Seq<Seq<char>>>,
    text: Seq<char>,
    rp: bool,
)
    requires
        arena_wf(nodes),
        valid_key(text),
        text.len() <= usize::MAX,
        text.contains(' '),
        walk_val(nodes, text) is Some,
    ensures
        tokenize_spec(nodes, syns, text, rp) == seq![
            token_spec(syns, text, walk_val(nodes, text).unwrap()),
        ],
{
    let n = text.len() as int;
    let tag = walk_val(nodes, text).unwrap();
    assert(n >= 1);
    let offs = offsets_spec(text);
    lemma_offs(text, 0, seq![0usize]);
    assert(offs[0] == 0);
    assert(forall|jj: int| 1 <= jj < offs.len() ==> 1 <= #[trigger] offs[jj] <= n);
    assert(text.subrange(0, n) =~= text);
    if n == 1 {
        // the single character is the space itself; the match is empty, no
        // candidate is kept, and the whole text goes through the exact
        // search of the zero-tag path
        lemma_lcp_hit(nodes, text, rp, 0, 0, None, 0, 0);
        assert(lcp_spec(nodes, text, rp) == Some((tag, 0usize)));
        assert(gen_rec(nodes, text, rp, offs, 0, Seq::empty()) == gen_rec(
            nodes,
            text,
            rp,
            offs,
            1,
            Seq::empty(),
        ));
        lemma_gen_empty_tail(nodes, text, rp, offs, 1);
        assert(gen_spec(nodes, text, rp) =~= Seq::<Candidate>::empty());
        assert(tokenize_spec(nodes, syns, text, rp) == split_tokens_spec(nodes, syns, text));
    } else {
        lemma_lcp_hit(nodes, text, rp, 0, 0, None, 0, 0);
        assert(lcp_spec(nodes, text, rp) == Some((tag, (n - 1) as usize)));
        let c0 = Candidate { start: 0usize, end: (n - 1) as usize, tag };
        assert(Seq::<Candidate>::empty().push(c0) =~= seq![c0]);
        assert(gen_rec(nodes, text, rp, offs, 0, Seq::empty()) == gen_rec(
            nodes,
            text,
            rp,
            offs,
            1,
            seq![c0],
        ));
        lemma_gen_tail(nodes, text, rp, offs, 1, seq![c0]);
        let cands = gen_spec(nodes, text, rp);
        assert(cands == seq![c0]);
        assert(resolve_spec(cands) == cands);
        let all = gaps_spec(text, cands);
        assert(gap_of(text, 0, 0) is None);
        assert(gap_of(text, n, n) is None);
        assert(all =~= seq![c0]) by {
            assert(with_gaps_rec(text, cands, 0, 0, Seq::empty()) == with_gaps_rec(
                text,
                cands,
                1,
                n,
                seq![c0],
            ));
        }
        let toks = mat_rec(nodes, syns, text, all, 0, Seq::empty());
        let span = text.subrange(c0.start as int, c0.end + 1);
        assert(span =~= text);
        let acc1 = if tag == 0 {
            Seq::<TokenV>::empty() + split_tokens_spec(nodes, syns, span)
        } else {
            Seq::<TokenV>::empty().push(token_spec(syns, span, tag))
        };
        assert(toks == mat_rec(nodes, syns, text, all, 1, acc1));
        assert(mat_rec(nodes, syns, text, all, 1, acc1) == acc1);
        if tag == 0 {
            assert(split_tokens_spec(nodes, syns, span) == seq![token_spec(syns, text, tag)]);
            assert(acc1 =~= seq![token_spec(syns, text, tag)]);
        } else {
            assert(acc1 =~= seq![token_spec(syns, text, tag)]);
        }
    }
}

/// With no candidate kept yet and every remaining anchor at or past the end
/// of the text, generation keeps nothing at all: an anchor at the very end
/// probes an empty suffix, and a one-character probe cannot clear the
/// empty-match filter.
proof fn lemma_gen_empty_tail(
    nodes: Seq<Node>,
    text: Seq<char>,
    rp: bool,
    offs: Seq<usize>,
    j: int,
)
    requires
        0 <= j,
        text.len() == 1,
        forall|jj: int| j <= jj < offs.len() ==> 1 <= #[trigger] offs[jj] <= text.len(),
    ensures
        gen_rec(nodes, text, rp, offs, j, Seq::empty()) == Seq::<Candidate>::empty(),
    decreases offs.len() - j,
{
    if j < offs.len() {
        let off = offs[j];
        assert(off == 1);
        let sub = text.subrange(1, 1);
        assert(sub.len() == 0);
        lemma_gen_empty_tail(nodes, text, rp, offs, j + 1);
    }
}

/// Law: tokenizing text equal to a stored key that carries the stopword
/// marker and holds a space yields one token with the stopword flag set.
pub proof fn lemma_stopword_key(
    nodes: Seq<Node>,
    syns: Seq<Seq<Seq<char>>>,
    text: Seq<char>,
    rp: bool,
)
    requires
        arena_wf(nodes),
        valid_key(text),
        text.len() <= usize::MAX,
        text.contains(' '),
        walk_val(nodes, text) == Some(STOPWORD_TAG),
    ensures
        tokenize_spec(nodes, syns, text, rp) == seq![
            TokenV { value: text, synonyms: Seq::empty(), is_stopword: true },
        ],
{
    lemma_exact_key_token(nodes, syns, text, rp);
}

/// Law: tokenizing text equal to a key stored with a synonym set yields one
/// token whose synonyms are exactly that set — through the fast path when
/// the key has no space, through the candidate pipeline when it has one.
pub proof fn lemma_synonym_key(
    nodes: Seq<Node>,
    syns: Seq<Seq<Seq<char>>>,
    text: Seq<char>,
    rp: bool,
    idx: int,
)
    requires
        arena_wf(nodes),
        valid_key(text),
        text.len() <= usize::MAX,
        0 <= idx < syns.len(),
        idx <= 294967293,
        walk_val(nodes, text) == Some((SYNONYM_BASE as int + idx) as u32),
    ensures
        tokenize_spec(nodes, syns, text, rp) == seq![
            TokenV { value: text, synonyms: syns[idx], is_stopword: false },
        ],
{
    let tag = (SYNONYM_BASE as int + idx) as u32;
    assert(tag as int - SYNONYM_BASE as int == idx);
    assert(syn_list(syns, tag) == syns[idx]);
    if text.contains(' ') {
        lemma_exact_key_token(nodes, syns, text, rp);
        assert(tag != STOPWORD_TAG);
        assert(token_spec(syns, text, tag) == TokenV {
            value: text,
            synonyms: syns[idx],
            is_stopword: false,
        });
    } else {
        assert(fast_token(nodes, syns, text) == TokenV {
            value: text,
            synonyms: syns[idx],
            is_stopword: false,
        });
    }
}

} // verus!

