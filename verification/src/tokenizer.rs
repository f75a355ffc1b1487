//! The tokenizer: candidate generation over word-boundary anchors, local
//! conflict resolution over sliding windows of three overlapping candidates,
//! gap filling, and materialization of tokens.
//!
//! Each pass is specified as a function over sequences; the executable code
//! is proved to compute exactly those functions.

use vstd::prelude::*;

use crate::alphabet::valid_char;
use crate::alphabet::valid_key;
use crate::alphabet::validate_str;
use crate::prefix::lcp_spec;
use crate::trie::reports_first_invalid;
use crate::trie::walk_val;
use crate::trie::Node;
use crate::trie::Trie;
use crate::trie::TrieError;
use crate::trie::STOPWORD_TAG;
use crate::trie::SYNONYM_BASE;
use vstd::string::StrSliceExecFns;
use vstd::string::StringExecFns;

verus! {

/// One output token: the matched text span, the synonym strings tied to it
/// (possibly none), and whether the span is a stopword entry.
#[derive(Debug, Clone)]
pub struct Token {
    /// The matched span of the input text.
    pub value: String,
    /// Synonym strings of the matched dictionary entry, in table order.
    pub synonyms: Vec<String>,
    /// Whether the matched entry carries the stopword marker.
    pub is_stopword: bool,
}

/// The mathematical content of a token.
pub struct TokenV {
    /// The matched span.
    pub value: Seq<char>,
    /// The synonym strings.
    pub synonyms: Seq<Seq<char>>,
    /// The stopword flag.
    pub is_stopword: bool,
}

impl View for Token {
    type V = TokenV;

    open spec fn view(&self) -> TokenV {
        TokenV {
            value: self.value@,
            synonyms: self.synonyms.deep_view(),
            is_stopword: self.is_stopword,
        }
    }
}

/// The views of a sequence of tokens.
pub open spec fn views_of(ts: Seq<Token>) -> Seq<TokenV> {
    ts.map_values(|t: Token| t@)
}

/// Appending a token appends its view.
pub proof fn lemma_views_push(ts: Seq<Token>, t: Token)
    ensures
        views_of(ts.push(t)) == views_of(ts).push(t@),
{
    assert(views_of(ts.push(t)) =~= views_of(ts).push(t@));
}

/// Concatenating token sequences concatenates their views.
pub proof fn lemma_views_concat(t1: Seq<Token>, t2: Seq<Token>)
    ensures
        views_of(t1 + t2) == views_of(t1) + views_of(t2),
{
    assert(views_of(t1 + t2) =~= views_of(t1) + views_of(t2));
}

/// A provisional matched span: inclusive start and end offsets into the
/// input, and the raw tagged value of the match (zero for gap fillers).
#[derive(Debug, Clone, Copy)]
pub struct Candidate {
    /// Inclusive start offset of the span.
    pub start: usize,
    /// Inclusive end offset of the span.
    pub end: usize,
    /// Raw tagged value; zero marks a placeholder to be split.
    pub tag: u32,
}

/// The candidate's span lies inside a text of length `n`.
pub open spec fn cand_ok(c: Candidate, n: int) -> bool {
    c.start <= c.end < n
}

/// Every candidate's span lies inside a text of length `n`.
pub open spec fn cands_ok(cs: Seq<Candidate>, n: int) -> bool {
    forall|i: int| 0 <= i < cs.len() ==> cand_ok(#[trigger] cs[i], n)
}

/// Anchor offsets accumulated left to right: position zero, then every
/// position right after a space.
pub open spec fn offs_rec(text: Seq<char>, i: int, acc: Seq<usize>) -> Seq<usize>
    decreases text.len() - i,
{
    if i >= text.len() {
        acc
    } else {
        let acc2 = if text[i] == ' ' {
            acc.push((i + 1) as usize)
        } else {
            acc
        };
        offs_rec(text, i + 1, acc2)
    }
}

/// All anchor offsets of `text`.
pub open spec fn offsets_spec(text: Seq<char>) -> Seq<usize> {
    offs_rec(text, 0, seq![0usize])
}

/// Candidate generation over the anchor offsets `offs`, left to right: the
/// longest-prefix search anchored at each offset proposes a span, kept only
/// when the match is non-empty and its end strictly exceeds the previous
/// kept candidate's end.
pub open spec fn gen_rec(
    nodes: Seq<Node>,
    text: Seq<char>,
    rp: bool,
    offs: Seq<usize>,
    j: int,
    acc: Seq<Candidate>,
) -> Seq<Candidate>
    decreases offs.len() - j,
{
    if j >= offs.len() {
        acc
    } else {
        let off = offs[j];
        let w = lcp_spec(nodes, text.subrange(off as int, text.len() as int), rp);
        let tag = match w {
            Some(p) => p.0,
            None => 0u32,
        };
        let e = match w {
            Some(p) => p.1,
            None => 0usize,
        };
        let last_end: usize = if acc.len() == 0 {
            0usize
        } else {
            acc.last().end
        };
        let acc2 = if off + e > last_end && e != 0 {
            acc.push(Candidate { start: off, end: (off + e) as usize, tag })
        } else {
            acc
        };
        gen_rec(nodes, text, rp, offs, j + 1, acc2)
    }
}

/// All kept candidates of `text`.
pub open spec fn gen_spec(nodes: Seq<Node>, text: Seq<char>, rp: bool) -> Seq<Candidate> {
    gen_rec(nodes, text, rp, offsets_spec(text), 0, Seq::empty())
}

/// Indices to drop, collected by sliding a window of three consecutive
/// candidates `(a, b, c)` over the list: when `b` overlaps both neighbours
/// and its tag is below their sum, `b` is dropped; otherwise the lower-tag
/// side of each overlapping pair is dropped (an `a`-`b` tie drops `b`, a
/// `b`-`c` tie drops `c`).
pub open spec fn windows_rec(c: Seq<Candidate>, i: int, acc: Seq<usize>) -> Seq<usize>
    decreases c.len() - i,
{
    if i + 2 >= c.len() {
        acc
    } else {
        let a = c[i];
        let b = c[i + 1];
        let d = c[i + 2];
        let acc2 = if (b.tag as int) < a.tag + d.tag && a.end >= b.start && b.end >= d.start
            && !acc.contains(i as usize) {
            acc.push((i + 1) as usize)
        } else {
            let acc_x = if a.tag >= b.tag && a.end >= b.start && !acc.contains(i as usize) {
                acc.push((i + 1) as usize)
            } else {
                acc
            };
            let acc_y = if b.tag > a.tag && a.end >= b.start {
                acc_x.push(i as usize)
            } else {
                acc_x
            };
            let acc_z = if b.tag >= d.tag && b.end >= d.start && !acc_y.contains((i + 1) as usize) {
                acc_y.push((i + 2) as usize)
            } else {
                acc_y
            };
            acc_z
        };
        windows_rec(c, i + 1, acc2)
    }
}

/// The candidates that survive a set of dropped indices, in order.
pub open spec fn keep_rec(c: Seq<Candidate>, rem: Seq<usize>, j: int, acc: Seq<Candidate>) -> Seq<
    Candidate,
>
    decreases c.len() - j,
{
    if j >= c.len() {
        acc
    } else {
        let acc2 = if rem.contains(j as usize) {
            acc
        } else {
            acc.push(c[j])
        };
        keep_rec(c, rem, j + 1, acc2)
    }
}

/// When exactly two candidates remain and still overlap, the lower-tag one
/// is dropped; a tie drops the later one.
pub open spec fn final_two_spec(c: Seq<Candidate>) -> Seq<Candidate> {
    if c.len() == 2 && c[0].end >= c[1].start {
        if c[0].tag >= c[1].tag {
            c.remove(1)
        } else {
            c.remove(0)
        }
    } else {
        c
    }
}

/// Conflict resolution. With exactly two candidates, an overlapping pair
/// keeps the higher-tag one (a tie favours the first). With three or more,
/// the window scan collects indices to drop, the drops are applied, and a
/// surviving overlapping pair of exactly two is decided by tag once more.
pub open spec fn resolve_spec(c: Seq<Candidate>) -> Seq<Candidate> {
    if c.len() == 2 {
        if c[0].end >= c[1].start {
            if c[0].tag >= c[1].tag {
                c.remove(1)
            } else {
                c.remove(0)
            }
        } else {
            c
        }
    } else if c.len() >= 3 {
        final_two_spec(keep_rec(c, windows_rec(c, 0, Seq::empty()), 0, Seq::empty()))
    } else {
        c
    }
}

/// First offset in `[lo, hi)` holding a character other than a space; `hi`
/// when there is none.
pub open spec fn first_ns(text: Seq<char>, lo: int, hi: int) -> int
    decreases hi - lo,
{
    if lo >= hi {
        hi
    } else if text[lo] != ' ' {
        lo
    } else {
        first_ns(text, lo + 1, hi)
    }
}

/// One past the last offset in `[lo, hi)` holding a character other than a
/// space; `lo` when there is none.
pub open spec fn last_ns(text: Seq<char>, lo: int, hi: int) -> int
    decreases hi - lo,
{
    if lo >= hi {
        lo
    } else if text[hi - 1] != ' ' {
        hi
    } else {
        last_ns(text, lo, hi - 1)
    }
}

/// The trimmed substring of the region `[lo, hi)` as a zero-tag placeholder
/// candidate, or nothing when the region holds only spaces.
pub open spec fn gap_of(text: Seq<char>, lo: int, hi: int) -> Option<Candidate> {
    if lo >= hi {
        None
    } else {
        let ts = first_ns(text, lo, hi);
        if ts >= hi {
            None
        } else {
            let te = last_ns(text, ts, hi);
            Some(Candidate { start: ts as usize, end: (te - 1) as usize, tag: 0u32 })
        }
    }
}

/// Interleaves the surviving candidates with the trimmed gaps between them,
/// before the first and after the last; a gap is measured from one past the
/// previous survivor's end to the next survivor's start.
pub open spec fn with_gaps_rec(
    text: Seq<char>,
    c: Seq<Candidate>,
    j: int,
    lo: int,
    acc: Seq<Candidate>,
) -> Seq<Candidate>
    decreases c.len() - j,
{
    if j >= c.len() {
        match gap_of(text, lo, text.len() as int) {
            Some(g) => acc.push(g),
            None => acc,
        }
    } else {
        let cj = c[j];
        let acc2 = match gap_of(text, lo, cj.start as int) {
            Some(g) => acc.push(g),
            None => acc,
        };
        with_gaps_rec(text, c, j + 1, cj.end + 1, acc2.push(cj))
    }
}

/// The survivors of resolution with all gap fillers, in span order.
pub open spec fn gaps_spec(text: Seq<char>, c: Seq<Candidate>) -> Seq<Candidate> {
    with_gaps_rec(text, c, 0, 0, Seq::empty())
}

/// The whitespace-delimited words of `s`, accumulated left to right.
pub open spec fn split_ws_rec(
    s: Seq<char>,
    i: int,
    cur: Seq<char>,
    acc: Seq<Seq<char>>,
) -> Seq<Seq<char>>
    decreases s.len() - i,
{
    if i >= s.len() {
        if cur.len() > 0 {
            acc.push(cur)
        } else {
            acc
        }
    } else if s[i] == ' ' {
        split_ws_rec(s, i + 1, Seq::empty(), if cur.len() > 0 {
            acc.push(cur)
        } else {
            acc
        })
    } else {
        split_ws_rec(s, i + 1, cur.push(s[i]), acc)
    }
}

/// The whitespace-delimited words of `s`.
pub open spec fn split_ws(s: Seq<char>) -> Seq<Seq<char>> {
    split_ws_rec(s, 0, Seq::empty(), Seq::empty())
}

/// The synonym strings a tagged value refers to: the table entry selected by
/// a synonym-range value with an index inside the table, nothing otherwise.
pub open spec fn syn_list(syns: Seq<Seq<Seq<char>>>, tag: u32) -> Seq<Seq<char>> {
    if tag >= SYNONYM_BASE && (tag as int - SYNONYM_BASE as int) < syns.len() {
        syns[tag as int - SYNONYM_BASE as int]
    } else {
        Seq::empty()
    }
}

/// The token a non-zero tagged value produces for a span: the stopword
/// marker sets the flag, a synonym-range value attaches its synonym set, and
/// any other value gives a plain token.
pub open spec fn token_spec(syns: Seq<Seq<Seq<char>>>, value: Seq<char>, tag: u32) -> TokenV {
    if tag == STOPWORD_TAG {
        TokenV { value, synonyms: Seq::empty(), is_stopword: true }
    } else if tag >= SYNONYM_BASE {
        TokenV { value, synonyms: syn_list(syns, tag), is_stopword: false }
    } else {
        TokenV { value, synonyms: Seq::empty(), is_stopword: false }
    }
}

/// A word as a plain token.
pub open spec fn plain_token(value: Seq<char>) -> TokenV {
    TokenV { value, synonyms: Seq::empty(), is_stopword: false }
}

/// Each word as a plain token.
pub open spec fn plain_tokens_of(ws: Seq<Seq<char>>) -> Seq<TokenV> {
    ws.map_values(|w: Seq<char>| plain_token(w))
}

/// Appending a word appends its plain token.
pub proof fn lemma_plain_push(ws: Seq<Seq<char>>, w: Seq<char>)
    ensures
        plain_tokens_of(ws.push(w)) == plain_tokens_of(ws).push(plain_token(w)),
{
    assert(plain_tokens_of(ws.push(w)) =~= plain_tokens_of(ws).push(plain_token(w)));
}

/// What a zero-tag span materializes to: an exact dictionary hit gives one
/// token per the stored value; a miss gives one plain token per
/// whitespace-delimited word.
pub open spec fn split_tokens_spec(
    nodes: Seq<Node>,
    syns: Seq<Seq<Seq<char>>>,
    span: Seq<char>,
) -> Seq<TokenV> {
    match walk_val(nodes, span) {
        Some(v) => seq![token_spec(syns, span, v)],
        None => plain_tokens_of(split_ws(span)),
    }
}

/// Materialization of the candidates in list order: zero-tag candidates are
/// split, the rest become one token each per their tag.
pub open spec fn mat_rec(
    nodes: Seq<Node>,
    syns: Seq<Seq<Seq<char>>>,
    text: Seq<char>,
    c: Seq<Candidate>,
    j: int,
    acc: Seq<TokenV>,
) -> Seq<TokenV>
    decreases c.len() - j,
{
    if j >= c.len() {
        acc
    } else {
        let span = text.subrange(c[j].start as int, c[j].end + 1);
        let acc2 = if c[j].tag == 0 {
            acc + split_tokens_spec(nodes, syns, span)
        } else {
            acc.push(token_spec(syns, span, c[j].tag))
        };
        mat_rec(nodes, syns, text, c, j + 1, acc2)
    }
}

/// The token of the single-word fast path: a direct exact search, synonyms
/// attached on a synonym hit, and never the stopword flag.
pub open spec fn fast_token(
    nodes: Seq<Node>,
    syns: Seq<Seq<Seq<char>>>,
    text: Seq<char>,
) -> TokenV {
    match walk_val(nodes, text) {
        Some(v) => if v >= SYNONYM_BASE {
            TokenV { value: text, synonyms: syn_list(syns, v), is_stopword: false }
        } else {
            plain_token(text)
        },
        None => plain_token(text),
    }
}

/// The full tokenization pipeline: the single-word fast path when the text
/// holds no space; otherwise generation, resolution, gap filling and
/// materialization. With no candidate at all, the whole text is treated as
/// one zero-tag span.
pub open spec fn tokenize_spec(
    nodes: Seq<Node>,
    syns: Seq<Seq<Seq<char>>>,
    text: Seq<char>,
    rp: bool,
) -> Seq<TokenV> {
    if !text.contains(' ') {
        seq![fast_token(nodes, syns, text)]
    } else {
        let cands = gen_spec(nodes, text, rp);
        if cands.len() == 0 {
            split_tokens_spec(nodes, syns, text)
        } else {
            mat_rec(nodes, syns, text, gaps_spec(text, resolve_spec(cands)), 0, Seq::empty())
        }
    }
}

/// Accepted characters are ASCII, so a validated string can be sliced by
/// character offsets directly.
pub proof fn lemma_valid_is_ascii(s: &str)
    requires
        valid_key(s@),
    ensures
        s.is_ascii(),
{
    assert forall|i: int| 0 <= i < s@.len() implies '\0' <= #[trigger] s@[i] <= '\u{7f}' by {
        assert(valid_char(s@[i]));
    }
}

/// The substring of `string` between character offsets `from` (inclusive)
/// and `to` (exclusive), as an owned string.
pub(crate) fn substr(string: &str, from: usize, to: usize) -> (r: String)
    requires
        valid_key(string@),
        from <= to,
        to <= string@.len(),
    ensures
        r@ == string@.subrange(from as int, to as int),
{
    proof {
        lemma_valid_is_ascii(string);
    }
    string.substring_ascii(from, to).to_owned()
}

/// Whether `string` holds a space.
fn has_space(string: &str, n: usize) -> (r: bool)
    requires
        n == string@.len(),
    ensures
        r == string@.contains(' '),
{
    let mut i: usize = 0;
    while i < n
        invariant
            n == string@.len(),
            i <= n,
            forall|j: int| 0 <= j < i ==> string@[j] != ' ',
        decreases n - i,
    {
        if string.get_char(i) == ' ' {
            return true;
        }
        i = i + 1;
    }
    assert(!string@.contains(' '));
    false
}

/// The anchor offsets of `string`: zero, then every position right after a
/// space.
fn find_offsets(string: &str, n: usize) -> (r: Vec<usize>)
    requires
        valid_key(string@),
        n == string@.len(),
    ensures
        r@ == offsets_spec(string@),
        forall|j: int| 0 <= j < r@.len() ==> #[trigger] r@[j] <= n,
    {
    let mut r: Vec<usize> = Vec::new();
    r.push(0);
    let mut i: usize = 0;
    while i < n
        invariant
            n == string@.len(),
            i <= n,
            offs_rec(string@, i as int, r@) == offsets_spec(string@),
            forall|j: int| 0 <= j < r@.len() ==> #[trigger] r@[j] <= i,
        decreases n - i,
    {
        if string.get_char(i) == ' ' {
            r.push(i + 1);
        }
        i = i + 1;
    }
    r
}

/// The whitespace-delimited words of `s`, each as a plain token.
fn split_plain(s: &str) -> (r: Vec<Token>)
    requires
        valid_key(s@),
    ensures
        views_of(r@) == plain_tokens_of(split_ws(s@)),
{
    let n = s.unicode_len();
    let mut r: Vec<Token> = Vec::new();
    let ghost mut wacc: Seq<Seq<char>> = Seq::empty();
    proof {
        assert(views_of(r@) =~= plain_tokens_of(wacc));
        assert(s@.subrange(0, 0) =~= Seq::<char>::empty());
    }
    let mut ws: usize = 0;
    let mut i: usize = 0;
    while i < n
        invariant
            valid_key(s@),
            n == s@.len(),
            ws <= i <= n,
            split_ws_rec(s@, i as int, s@.subrange(ws as int, i as int), wacc) == split_ws(s@),
            views_of(r@) == plain_tokens_of(wacc),
        decreases n - i,
    {
        let ghost cur = s@.subrange(ws as int, i as int);
        let c = s.get_char(i);
        if c == ' ' {
            if ws < i {
                let w = substr(s, ws, i);
                let syns: Vec<String> = Vec::new();
                let t = Token { value: w, synonyms: syns, is_stopword: false };
                proof {
                    assert(t@ == plain_token(cur)) by {
                        assert(t.synonyms.deep_view() =~= Seq::<Seq<char>>::empty());
                    }
                }
                let ghost r0 = r@;
                r.push(t);
                proof {
                    lemma_views_push(r0, t);
                    lemma_plain_push(wacc, cur);
                    wacc = wacc.push(cur);
                }
            }
            ws = i + 1;
            proof {
                assert(s@.subrange(ws as int, i + 1) =~= Seq::<char>::empty());
            }
        } else {
            proof {
                assert(s@.subrange(ws as int, i + 1) =~= cur.push(s@[i as int]));
            }
        }
        i = i + 1;
    }
    if ws < n {
        let w = substr(s, ws, n);
        let syns: Vec<String> = Vec::new();
        let t = Token { value: w, synonyms: syns, is_stopword: false };
        proof {
            assert(t@ == plain_token(s@.subrange(ws as int, n as int))) by {
                assert(t.synonyms.deep_view() =~= Seq::<Seq<char>>::empty());
            }
        }
        let ghost r0 = r@;
        r.push(t);
        proof {
            lemma_views_push(r0, t);
            lemma_plain_push(wacc, s@.subrange(ws as int, n as int));
            wacc = wacc.push(s@.subrange(ws as int, n as int));
        }
    }
    r
}

impl Trie {
    /// The synonym strings a tagged value refers to: a copy of the selected
    /// table entry for an in-table synonym reference, nothing otherwise.
    fn synonyms_for(&self, tag: u32) -> (r: Vec<String>)
        ensures
            r.deep_view() == syn_list(self.syn_table(), tag),
    {
        if tag >= SYNONYM_BASE {
            let idx = (tag - SYNONYM_BASE) as usize;
            if idx < self.synonym_dict.len() {
                let src = &self.synonym_dict[idx];
                let mut v: Vec<String> = Vec::new();
                let mut k: usize = 0;
                while k < src.len()
                    invariant
                        k <= src@.len(),
                        src == &self.synonym_dict[idx as int],
                        idx < self.synonym_dict@.len(),
                        v@ == src@.subrange(0, k as int),
                    decreases src@.len() - k,
                {
                    v.push(src[k].clone());
                    proof {
                        assert(v@ =~= src@.subrange(0, k + 1));
                    }
                    k = k + 1;
                }
                proof {
                    assert(v@ =~= src@);
                    assert(v.deep_view() =~= self.syn_table()[tag as int - SYNONYM_BASE as int]);
                }
                v
            } else {
                let v: Vec<String> = Vec::new();
                proof {
                    assert(v.deep_view() =~= Seq::<Seq<char>>::empty());
                }
                v
            }
        } else {
            let v: Vec<String> = Vec::new();
            proof {
                assert(v.deep_view() =~= Seq::<Seq<char>>::empty());
            }
            v
        }
    }

    /// The token a tagged value produces for an owned span.
    fn make_token(&self, value: String, tag: u32) -> (t: Token)
        ensures
            t@ == token_spec(self.syn_table(), value@, tag),
    {
        if tag == STOPWORD_TAG {
            let syns: Vec<String> = Vec::new();
            proof {
                assert(syns.deep_view() =~= Seq::<Seq<char>>::empty());
            }
            Token { value, synonyms: syns, is_stopword: true }
        } else if tag >= SYNONYM_BASE {
            let syns = self.synonyms_for(tag);
            Token { value, synonyms: syns, is_stopword: false }
        } else {
            let syns: Vec<String> = Vec::new();
            proof {
                assert(syns.deep_view() =~= Seq::<Seq<char>>::empty());
            }
            Token { value, synonyms: syns, is_stopword: false }
        }
    }

    /// Materializes a zero-tag span: an exact dictionary hit gives one token
    /// per the stored value, a miss one plain token per word.
    fn split_candidate(&self, string: &str, cand: Candidate) -> (r: Vec<Token>)
        requires
            self.wf(),
            valid_key(string@),
            string@.len() <= usize::MAX,
            cand_ok(cand, string@.len() as int),
        ensures
            views_of(r@) == split_tokens_spec(
                self.nodes@,
                self.syn_table(),
                string@.subrange(cand.start as int, cand.end + 1),
            ),
    {
        proof {
            lemma_valid_is_ascii(string);
        }
        let span_str = string.substring_ascii(cand.start, cand.end + 1);
        proof {
            assert(valid_key(span_str@)) by {
                assert(forall|i: int|
                    0 <= i < span_str@.len() ==> #[trigger] span_str@[i] == string@[cand.start
                        + i]);
            }
        }
        match self.search(span_str) {
            Ok(Some(v)) => {
                let t = self.make_token(span_str.to_owned(), v);
                let mut r: Vec<Token> = Vec::new();
                r.push(t);
                proof {
                    assert(views_of(r@) =~= seq![
                        token_spec(self.syn_table(), span_str@, v),
                    ]);
                }
                r
            },
            Ok(None) => split_plain(span_str),
            Err(_) => {
                proof {
                    assert(false);
                }
                Vec::new()
            },
        }
    }

    /// Materialization in list order: zero-tag candidates are split, the
    /// rest become one token each per their tag.
    fn materialize(&self, string: &str, cands: &Vec<Candidate>) -> (r: Vec<Token>)
        requires
            self.wf(),
            valid_key(string@),
            string@.len() <= usize::MAX,
            cands_ok(cands@, string@.len() as int),
        ensures
            views_of(r@) == mat_rec(
                self.nodes@,
                self.syn_table(),
                string@,
                cands@,
                0,
                Seq::empty(),
            ),
    {
        let mut r: Vec<Token> = Vec::new();
        proof {
            assert(views_of(r@) =~= Seq::<TokenV>::empty());
        }
        let mut j: usize = 0;
        while j < cands.len()
            invariant
                self.wf(),
                valid_key(string@),
                string@.len() <= usize::MAX,
                cands_ok(cands@, string@.len() as int),
                j <= cands@.len(),
                mat_rec(
                    self.nodes@,
                    self.syn_table(),
                    string@,
                    cands@,
                    j as int,
                    views_of(r@),
                ) == mat_rec(self.nodes@, self.syn_table(), string@, cands@, 0, Seq::empty()),
            decreases cands@.len() - j,
        {
            let cj = cands[j];
            proof {
                assert(cand_ok(cands@[j as int], string@.len() as int));
            }
            if cj.tag == 0 {
                let mut sp = self.split_candidate(string, cj);
                let ghost spv = views_of(sp@);
                let ghost rseq = r@;
                let ghost spseq = sp@;
                r.append(&mut sp);
                proof {
                    lemma_views_concat(rseq, spseq);
                }
            } else {
                let t = self.make_token(substr(string, cj.start, cj.end + 1), cj.tag);
                let ghost rseq = r@;
                r.push(t);
                proof {
                    lemma_views_push(rseq, t);
                }
            }
            j = j + 1;
        }
        r
    }

    /// Tokenizes `input`: a single word is looked up directly; otherwise
    /// dictionary matches anchored at word boundaries are generated,
    /// conflicts between overlapping matches resolved, the stretches in
    /// between kept as plain spans, and all spans turned into tokens in text
    /// order. Fails exactly when the alphabet rejects a character of the
    /// input.
    pub fn get_all_tokens(&self, input: &str, return_prefix: bool) -> (r: Result<
        Vec<Token>,
        TrieError,
    >)
        requires
            self.wf(),
        ensures
            match r {
                Ok(ts) => valid_key(input@) && views_of(ts@) == tokenize_spec(
                    self.nodes@,
                    self.syn_table(),
                    input@,
                    return_prefix,
                ),
                Err(e) => !valid_key(input@) && reports_first_invalid(e, input@),
            },
    {
        let n = match validate_str(input) {
            Ok(n) => n,
            Err(c) => {
                return Err(TrieError::InvalidCharacter(c));
            },
        };
        if !has_space(input, n) {
            let v = match self.search(input) {
                Ok(v) => v,
                Err(_) => {
                    proof {
                        assert(false);
                    }
                    None
                },
            };
            let t = match v {
                Some(x) => {
                    if x >= SYNONYM_BASE {
                        Token {
                            value: input.to_owned(),
                            synonyms: self.synonyms_for(x),
                            is_stopword: false,
                        }
                    } else {
                        let syns: Vec<String> = Vec::new();
                        proof {
                            assert(syns.deep_view() =~= Seq::<Seq<char>>::empty());
                        }
                        Token { value: input.to_owned(), synonyms: syns, is_stopword: false }
                    }
                },
                None => {
                    let syns: Vec<String> = Vec::new();
                    proof {
                        assert(syns.deep_view() =~= Seq::<Seq<char>>::empty());
                    }
                    Token { value: input.to_owned(), synonyms: syns, is_stopword: false }
                },
            };
            proof {
                assert(t@ == fast_token(self.nodes@, self.syn_table(), input@));
            }
            let mut r: Vec<Token> = Vec::new();
            r.push(t);
            proof {
                assert(views_of(r@) =~= seq![
                    fast_token(self.nodes@, self.syn_table(), input@),
                ]);
            }
            return Ok(r);
        }
        let cands = self.generate(input, n, return_prefix);
        if cands.len() == 0 {
            proof {
                assert(input@.contains(' '));
                assert(n >= 1);
                assert(input@.subrange(0, n as int) =~= input@);
            }
            let r = self.split_candidate(input, Candidate { start: 0, end: n - 1, tag: 0 });
            return Ok(r);
        }
        let resolved = self.resolve(cands);
        proof {
            lemma_resolve_ok(cands@, n as int);
        }
        let all = fill_gaps(input, n, &resolved);
        let toks = self.materialize(input, &all);
        Ok(toks)
    }
}

/// Whether `v` holds `x`.
fn contains_idx(v: &Vec<usize>, x: usize) -> (r: bool)
    ensures
        r == v@.contains(x),
{
    let mut i: usize = 0;
    while i < v.len()
        invariant
            i <= v@.len(),
            forall|j: int| 0 <= j < i ==> v@[j] != x,
        decreases v@.len() - i,
    {
        if v[i] == x {
            return true;
        }
        i = i + 1;
    }
    assert(!v@.contains(x));
    false
}

/// Bounds of the first-non-space scan.
proof fn lemma_first_ns(text: Seq<char>, lo: int, hi: int)
    requires
        lo <= hi,
    ensures
        lo <= first_ns(text, lo, hi) <= hi,
        first_ns(text, lo, hi) < hi ==> text[first_ns(text, lo, hi)] != ' ',
    decreases hi - lo,
{
    if lo < hi && text[lo] == ' ' {
        lemma_first_ns(text, lo + 1, hi);
    }
}

/// Bounds of the last-non-space scan; a non-space character at `lo` keeps
/// at least one character in the trimmed region.
proof fn lemma_last_ns(text: Seq<char>, lo: int, hi: int)
    requires
        lo <= hi,
    ensures
        lo <= last_ns(text, lo, hi) <= hi,
        lo < hi && text[lo] != ' ' ==> lo + 1 <= last_ns(text, lo, hi),
    decreases hi - lo,
{
    if lo < hi && text[hi - 1] == ' ' {
        lemma_last_ns(text, lo, hi - 1);
    }
}

/// A gap candidate lies inside the region it was trimmed from.
proof fn lemma_gap_ok(text: Seq<char>, lo: int, hi: int)
    requires
        0 <= lo,
        hi <= text.len(),
        hi <= usize::MAX,
    ensures
        match gap_of(text, lo, hi) {
            Some(g) => lo <= g.start && g.start <= g.end && (g.end as int) < hi && g.tag == 0,
            None => true,
        },
{
    if lo < hi {
        lemma_first_ns(text, lo, hi);
        let ts = first_ns(text, lo, hi);
        assert(lo <= ts <= hi);
        if ts < hi {
            assert(text[ts] != ' ');
            lemma_last_ns(text, ts, hi);
            let te = last_ns(text, ts, hi);
            assert(ts + 1 <= te <= hi);
            assert(gap_of(text, lo, hi) == Some(
                Candidate { start: ts as usize, end: (te - 1) as usize, tag: 0u32 },
            ));
        } else {
            assert(gap_of(text, lo, hi) is None);
        }
    } else {
        assert(gap_of(text, lo, hi) is None);
    }
}

/// Surviving a drop set keeps every span inside the text.
proof fn lemma_keep_ok(c: Seq<Candidate>, rem: Seq<usize>, j: int, acc: Seq<Candidate>, n: int)
    requires
        cands_ok(c, n),
        cands_ok(acc, n),
        0 <= j,
    ensures
        cands_ok(keep_rec(c, rem, j, acc), n),
    decreases c.len() - j,
{
    if j < c.len() {
        assert(cand_ok(c[j], n));
        let acc2 = if rem.contains(j as usize) {
            acc
        } else {
            acc.push(c[j])
        };
        assert(cands_ok(acc2, n));
        lemma_keep_ok(c, rem, j + 1, acc2, n);
    }
}

/// Conflict resolution keeps every span inside the text.
proof fn lemma_resolve_ok(c: Seq<Candidate>, n: int)
    requires
        cands_ok(c, n),
    ensures
        cands_ok(resolve_spec(c), n),
{
    if c.len() == 2 {
        if c[0].end >= c[1].start {
            if c[0].tag >= c[1].tag {
                assert(cands_ok(c.remove(1), n)) by {
                    assert(c.remove(1) =~= seq![c[0]]);
                }
            } else {
                assert(cands_ok(c.remove(0), n)) by {
                    assert(c.remove(0) =~= seq![c[1]]);
                }
            }
        }
    } else if c.len() >= 3 {
        lemma_keep_ok(c, windows_rec(c, 0, Seq::empty()), 0, Seq::empty(), n);
        let kept = keep_rec(c, windows_rec(c, 0, Seq::empty()), 0, Seq::empty());
        if kept.len() == 2 && kept[0].end >= kept[1].start {
            if kept[0].tag >= kept[1].tag {
                assert(cands_ok(kept.remove(1), n)) by {
                    assert(kept.remove(1) =~= seq![kept[0]]);
                }
            } else {
                assert(cands_ok(kept.remove(0), n)) by {
                    assert(kept.remove(0) =~= seq![kept[1]]);
                }
            }
        }
    }
}

/// First offset in `[lo, hi)` of `string` holding a character other than a
/// space, `hi` when there is none.
fn first_nonspace(string: &str, lo: usize, hi: usize) -> (r: usize)
    requires
        lo <= hi,
        hi <= string@.len(),
    ensures
        r as int == first_ns(string@, lo as int, hi as int),
        lo <= r <= hi,
{
    let mut i: usize = lo;
    while i < hi
        invariant
            lo <= i <= hi,
            hi <= string@.len(),
            first_ns(string@, i as int, hi as int) == first_ns(string@, lo as int, hi as int),
            forall|j: int| lo <= j < i ==> string@[j] == ' ',
        decreases hi - i,
    {
        if string.get_char(i) != ' ' {
            return i;
        }
        i = i + 1;
    }
    hi
}

/// One past the last offset in `[lo, hi)` of `string` holding a character
/// other than a space, `lo` when there is none.
fn last_nonspace(string: &str, lo: usize, hi: usize) -> (r: usize)
    requires
        lo <= hi,
        hi <= string@.len(),
    ensures
        r as int == last_ns(string@, lo as int, hi as int),
        lo <= r <= hi,
{
    let mut i: usize = hi;
    while i > lo
        invariant
            lo <= i <= hi,
            hi <= string@.len(),
            last_ns(string@, lo as int, i as int) == last_ns(string@, lo as int, hi as int),
        decreases i,
    {
        if string.get_char(i - 1) != ' ' {
            return i;
        }
        i = i - 1;
    }
    lo
}

/// The trimmed region `[lo, hi)` of `string` as a zero-tag candidate, or
/// nothing when it holds only spaces (or is empty or inverted).
fn gap_candidate(string: &str, lo: usize, hi: usize) -> (r: Option<Candidate>)
    requires
        hi <= string@.len(),
    ensures
        r == gap_of(string@, lo as int, hi as int),
        match r {
            Some(g) => cand_ok(g, string@.len() as int),
            None => true,
        },
{
    proof {
        lemma_gap_ok(string@, lo as int, hi as int);
    }
    if lo >= hi {
        return None;
    }
    let ts = first_nonspace(string, lo, hi);
    if ts >= hi {
        return None;
    }
    let te = last_nonspace(string, ts, hi);
    proof {
        lemma_first_ns(string@, lo as int, hi as int);
        lemma_last_ns(string@, ts as int, hi as int);
    }
    Some(Candidate { start: ts, end: te - 1, tag: 0 })
}

/// Interleaves the surviving candidates with trimmed gap candidates for the
/// stretches of text between them, before the first and after the last.
fn fill_gaps(string: &str, n: usize, cands: &Vec<Candidate>) -> (r: Vec<Candidate>)
    requires
        n == string@.len(),
        cands_ok(cands@, n as int),
    ensures
        r@ == gaps_spec(string@, cands@),
        cands_ok(r@, n as int),
{
    let mut r: Vec<Candidate> = Vec::new();
    let mut lo: usize = 0;
    let mut j: usize = 0;
    while j < cands.len()
        invariant
            n == string@.len(),
            j <= cands@.len(),
            cands_ok(cands@, n as int),
            lo <= n,
            with_gaps_rec(string@, cands@, j as int, lo as int, r@) == gaps_spec(
                string@,
                cands@,
            ),
            cands_ok(r@, n as int),
        decreases cands@.len() - j,
    {
        let cj = cands[j];
        proof {
            assert(cand_ok(cands@[j as int], n as int));
        }
        match gap_candidate(string, lo, cj.start) {
            Some(g) => r.push(g),
            None => {},
        }
        r.push(cj);
        lo = cj.end + 1;
        j = j + 1;
    }
    match gap_candidate(string, lo, n) {
        Some(g) => r.push(g),
        None => {},
    }
    r
}

impl Trie {
    /// Candidate generation: anchors a longest-prefix search at offset zero
    /// and right after every space, keeping a candidate only when its match
    /// is non-empty and extends strictly past the previous kept candidate.
    fn generate(&self, string: &str, n: usize, return_prefix: bool) -> (r: Vec<Candidate>)
        requires
            self.wf(),
            valid_key(string@),
            n == string@.len(),
        ensures
            r@ == gen_spec(self.nodes@, string@, return_prefix),
            cands_ok(r@, n as int),
    {
        proof {
            lemma_valid_is_ascii(string);
        }
        let offs = find_offsets(string, n);
        let mut r: Vec<Candidate> = Vec::new();
        let mut j: usize = 0;
        while j < offs.len()
            invariant
                self.wf(),
                valid_key(string@),
                n == string@.len(),
                j <= offs@.len(),
                offs@ == offsets_spec(string@),
                forall|k: int| 0 <= k < offs@.len() ==> #[trigger] offs@[k] <= n,
                gen_rec(self.nodes@, string@, return_prefix, offs@, j as int, r@) == gen_spec(
                    self.nodes@,
                    string@,
                    return_prefix,
                ),
                cands_ok(r@, n as int),
                string.is_ascii(),
            decreases offs@.len() - j,
        {
            let off = offs[j];
            let suffix = string.substring_ascii(off, n);
            let w = match self.longest_common_prefix_search(suffix, return_prefix) {
                Ok(w) => w,
                Err(_) => {
                    proof {
                        assert(valid_key(suffix@)) by {
                            assert(forall|i: int|
                                0 <= i < suffix@.len() ==> #[trigger] suffix@[i] == string@[off
                                    + i]);
                        }
                        assert(false);
                    }
                    None
                },
            };
            let (tag, e): (u32, usize) = match w {
                Some(p) => p,
                None => (0u32, 0usize),
            };
            let last_end: usize = if r.len() == 0 {
                0
            } else {
                r[r.len() - 1].end
            };
            proof {
                if e != 0 {
                    assert(suffix@.len() > 0);
                }
            }
            if off + e > last_end && e != 0 {
                r.push(Candidate { start: off, end: off + e, tag });
            }
            j = j + 1;
        }
        r
    }

    /// Conflict resolution over the generated candidates.
    fn resolve(&self, cands: Vec<Candidate>) -> (r: Vec<Candidate>)
        ensures
            r@ == resolve_spec(cands@),
    {
        let mut cands = cands;
        if cands.len() == 2 {
            if cands[0].end >= cands[1].start {
                if cands[0].tag >= cands[1].tag {
                    cands.remove(1);
                } else {
                    cands.remove(0);
                }
            }
            return cands;
        }
        if cands.len() >= 3 {
            let ghost c0 = cands@;
            let mut rem: Vec<usize> = Vec::new();
            let mut i: usize = 0;
            while i < cands.len() - 2
                invariant
                    cands@ == c0,
                    c0.len() >= 3,
                    i <= c0.len() - 2,
                    windows_rec(c0, i as int, rem@) == windows_rec(c0, 0, Seq::empty()),
                decreases c0.len() - i,
            {
                let a = cands[i];
                let b = cands[i + 1];
                let d = cands[i + 2];
                if (b.tag as u64) < (a.tag as u64) + (d.tag as u64) && a.end >= b.start && b.end
                    >= d.start && !contains_idx(&rem, i) {
                    rem.push(i + 1);
                } else {
                    if a.tag >= b.tag && a.end >= b.start && !contains_idx(&rem, i) {
                        rem.push(i + 1);
                    }
                    if b.tag > a.tag && a.end >= b.start {
                        rem.push(i);
                    }
                    if b.tag >= d.tag && b.end >= d.start && !contains_idx(&rem, i + 1) {
                        rem.push(i + 2);
                    }
                }
                i = i + 1;
            }
            let mut kept: Vec<Candidate> = Vec::new();
            let mut j: usize = 0;
            while j < cands.len()
                invariant
                    cands@ == c0,
                    j <= c0.len(),
                    keep_rec(c0, rem@, j as int, kept@) == keep_rec(c0, rem@, 0, Seq::empty()),
                decreases c0.len() - j,
            {
                if !contains_idx(&rem, j) {
                    kept.push(cands[j]);
                }
                j = j + 1;
            }
            if kept.len() == 2 {
                if kept[0].end >= kept[1].start {
                    if kept[0].tag >= kept[1].tag {
                        kept.remove(1);
                    } else {
                        kept.remove(0);
                    }
                }
            }
            return kept;
        }
        cands
    }
}

} // verus!
