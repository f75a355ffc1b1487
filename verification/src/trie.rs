//! Array-based trie with indexed transitions.
//!
//! Nodes live in a growable arena; a transition slot holds either the index of
//! a child node or the sentinel `NO_TRANSITION`. The trie is modelled as a
//! finite map from accepted character sequences to 32-bit tagged values.

use vstd::prelude::*;

use crate::alphabet::char_2_index;
use crate::alphabet::char_index;
use crate::alphabet::is_first_invalid;
use crate::alphabet::lemma_char_index_bounds;
use crate::alphabet::lemma_char_index_injective;
use crate::alphabet::valid_char;
use crate::alphabet::valid_key;
use crate::alphabet::validate_str;
use crate::alphabet::ALPHABET_SIZE;
use vstd::string::StrSliceExecFns;

verus! {

/// Transition-slot sentinel: no child for this symbol. Equal to `u32::MAX`.
pub const NO_TRANSITION: u32 = 4294967295;

/// Tagged value marking a dictionary entry as a stopword.
pub const STOPWORD_TAG: u32 = 4294967294;

/// Smallest tagged value that refers to a synonym set; the set index is the
/// value minus this base.
pub const SYNONYM_BASE: u32 = 4000000000;

/// The single error of the library: a character outside the 37-symbol
/// alphabet, reported with the offending character.
#[derive(Debug, Clone, Copy, PartialEq, Eq, Structural)]
pub enum TrieError {
    InvalidCharacter(char),
}

/// One arena node: 37 transition slots and an optional tagged value.
pub struct Node {
    /// Transition slots, one per alphabet symbol; `NO_TRANSITION` marks an
    /// absent child, any other value is the arena index of the child.
    pub chars: Vec<u32>,
    /// The tagged value stored at this node, if a dictionary entry
    /// terminates here.
    pub val: Option<u32>,
}

impl Node {
    /// A fresh node: every slot empty, no value.
    pub fn new() -> (n: Node)
        ensures
            n.chars@.len() == 37,
            forall|c: int| 0 <= c < 37 ==> n.chars@[c] == NO_TRANSITION,
            n.val is None,
    {
        let mut chars: Vec<u32> = Vec::new();
        let mut i: usize = 0;
        while i < ALPHABET_SIZE
            invariant
                i <= 37,
                chars@.len() == i,
                forall|c: int| 0 <= c < i ==> chars@[c] == NO_TRANSITION,
            decreases 37 - i,
        {
            chars.push(NO_TRANSITION);
            i = i + 1;
        }
        Node { chars, val: None }
    }
}

/// The child slot of node `n` for symbol `c`, as a mathematical integer.
pub open spec fn slot(nodes: Seq<Node>, n: int, c: int) -> int {
    nodes[n].chars@[c] as int
}

/// Well-formedness of the arena: at least the root; every slot is either
/// empty or points strictly forward to an existing node; no two slots point
/// to the same node. Forward-pointing slots make the structure acyclic, and
/// slot uniqueness makes it a tree rooted at index 0.
pub open spec fn arena_wf(nodes: Seq<Node>) -> bool {
    &&& nodes.len() >= 1
    &&& nodes.len() <= NO_TRANSITION
    &&& forall|n: int| 0 <= n < nodes.len() ==> (#[trigger] nodes[n].chars@).len() == 37
    &&& forall|n: int, c: int|
        0 <= n < nodes.len() && 0 <= c < 37 ==> (#[trigger] slot(nodes, n, c) == NO_TRANSITION
            || (n < slot(nodes, n, c) < nodes.len()))
    &&& forall|n1: int, c1: int, n2: int, c2: int|
        0 <= n1 < nodes.len() && 0 <= c1 < 37 && 0 <= n2 < nodes.len() && 0 <= c2 < 37
            && #[trigger] slot(nodes, n1, c1) == #[trigger] slot(nodes, n2, c2)
            && slot(nodes, n1, c1) != NO_TRANSITION ==> n1 == n2 && c1 == c2
}

/// Arena index of the node reached from node `n` by consuming `key`, or
/// `None` when a transition is missing.
pub open spec fn walk(nodes: Seq<Node>, n: int, key: Seq<char>) -> Option<int>
    decreases key.len(),
{
    if key.len() == 0 {
        Some(n)
    } else {
        let t = slot(nodes, n, char_index(key[0]));
        if t == NO_TRANSITION {
            None
        } else {
            walk(nodes, t, key.subrange(1, key.len() as int))
        }
    }
}

/// The tagged value stored at the end of `key`'s path from the root, if the
/// path exists and a value is stored there.
pub open spec fn walk_val(nodes: Seq<Node>, key: Seq<char>) -> Option<u32> {
    match walk(nodes, 0, key) {
        Some(n) => nodes[n].val,
        None => None,
    }
}

/// The dictionary the arena encodes: every accepted key whose path ends at a
/// node holding a value, mapped to that value.
pub open spec fn arena_map(nodes: Seq<Node>) -> Map<Seq<char>, u32> {
    Map::new(
        |k: Seq<char>| valid_key(k) && walk_val(nodes, k) is Some,
        |k: Seq<char>| walk_val(nodes, k).unwrap(),
    )
}

/// Splitting a key anywhere splits its walk: the whole walk reaches a node
/// exactly when the first part reaches some node and the rest walks on from
/// there.
pub proof fn lemma_walk_append(nodes: Seq<Node>, n: int, k1: Seq<char>, k2: Seq<char>)
    ensures
        walk(nodes, n, k1 + k2) == match walk(nodes, n, k1) {
            None => None::<int>,
            Some(m) => walk(nodes, m, k2),
        },
    decreases k1.len(),
{
    if k1.len() == 0 {
        assert(k1 + k2 =~= k2);
    } else {
        let t = slot(nodes, n, char_index(k1[0]));
        assert((k1 + k2)[0] == k1[0]);
        if t != NO_TRANSITION {
            lemma_walk_append(nodes, t, k1.subrange(1, k1.len() as int), k2);
            assert((k1 + k2).subrange(1, (k1 + k2).len() as int) =~= k1.subrange(
                1,
                k1.len() as int,
            ) + k2);
        }
    }
}

/// In a well-formed arena a walk only moves forward through the arena and
/// never leaves it.
pub proof fn lemma_walk_bounds(nodes: Seq<Node>, n: int, key: Seq<char>)
    requires
        arena_wf(nodes),
        0 <= n < nodes.len(),
        valid_key(key),
    ensures
        match walk(nodes, n, key) {
            Some(m) => n <= m < nodes.len(),
            None => true,
        },
    decreases key.len(),
{
    if key.len() > 0 {
        assert(valid_char(key[0]));
        let t = slot(nodes, n, char_index(key[0]));
        if t != NO_TRANSITION {
            let rest = key.subrange(1, key.len() as int);
            assert(valid_key(rest)) by {
                assert(forall|i: int| 0 <= i < rest.len() ==> #[trigger] rest[i] == key[i + 1]);
            }
            lemma_walk_bounds(nodes, t, rest);
        }
    }
}

/// In a well-formed arena each node is reached from the root by at most one
/// key: the transition slots form a tree.
pub proof fn lemma_path_unique(nodes: Seq<Node>, k1: Seq<char>, k2: Seq<char>, p: int)
    requires
        arena_wf(nodes),
        valid_key(k1),
        valid_key(k2),
        walk(nodes, 0, k1) == Some(p),
        walk(nodes, 0, k2) == Some(p),
    ensures
        k1 == k2,
    decreases k1.len(),
{
    lemma_walk_bounds(nodes, 0, k1);
    if k1.len() == 0 {
        assert(p == 0);
        if k2.len() > 0 {
            let d2 = k2.subrange(0, k2.len() - 1);
            lemma_last_edge(nodes, k2, p);
        }
        assert(k2.len() == 0);
        assert(k1 =~= k2);
    } else {
        if k2.len() == 0 {
            lemma_last_edge(nodes, k1, p);
            assert(false);
        }
        let d1 = k1.subrange(0, k1.len() - 1);
        let d2 = k2.subrange(0, k2.len() - 1);
        let (m1, c1) = lemma_last_edge(nodes, k1, p);
        let (m2, c2) = lemma_last_edge(nodes, k2, p);
        assert(slot(nodes, m1, c1) == slot(nodes, m2, c2));
        assert(m1 == m2 && c1 == c2);
        lemma_char_index_injective(k1[k1.len() - 1], k2[k2.len() - 1]);
        assert(valid_key(d1)) by {
            assert(forall|i: int| 0 <= i < d1.len() ==> #[trigger] d1[i] == k1[i]);
        }
        assert(valid_key(d2)) by {
            assert(forall|i: int| 0 <= i < d2.len() ==> #[trigger] d2[i] == k2[i]);
        }
        lemma_path_unique(nodes, d1, d2, m1);
        assert(k1 =~= d1 + seq![k1[k1.len() - 1]]);
        assert(k2 =~= d2 + seq![k2[k2.len() - 1]]);
    }
}

/// A nonempty key that reaches a node does so through a last edge: its prefix
/// reaches the parent, whose slot for the key's last character is the node.
/// Returns the parent index and that symbol index. Since every slot points
/// strictly forward, the reached node cannot be the root.
pub proof fn lemma_last_edge(nodes: Seq<Node>, k: Seq<char>, p: int) -> (r: (int, int))
    requires
        arena_wf(nodes),
        valid_key(k),
        k.len() > 0,
        walk(nodes, 0, k) == Some(p),
    ensures
        ({
            let (m, c) = r;
            &&& 0 <= m < nodes.len()
            &&& 0 <= c < 37
            &&& c == char_index(k[k.len() - 1])
            &&& walk(nodes, 0, k.subrange(0, k.len() - 1)) == Some(m)
            &&& slot(nodes, m, c) == p
            &&& m < p < nodes.len()
        }),
{
    let d = k.subrange(0, k.len() - 1);
    let last = seq![k[k.len() - 1]];
    assert(k =~= d + last);
    assert(valid_key(d)) by {
        assert(forall|i: int| 0 <= i < d.len() ==> #[trigger] d[i] == k[i]);
    }
    lemma_walk_append(nodes, 0, d, last);
    let m = walk(nodes, 0, d).unwrap();
    lemma_walk_bounds(nodes, 0, d);
    assert(valid_char(k[k.len() - 1]));
    let c = char_index(last[0]);
    let t = slot(nodes, m, c);
    assert(t != NO_TRANSITION);
    assert(walk(nodes, t, last.subrange(1, 1)) == Some(t)) by {
        assert(last.subrange(1, 1).len() == 0);
    }
    assert(t == p);
    (m, c)
}

/// Walks read only the transition slots: two arenas of the same size whose
/// slots agree everywhere produce the same walks.
pub proof fn lemma_walk_same_slots(nodes1: Seq<Node>, nodes2: Seq<Node>, n: int, k: Seq<char>)
    requires
        arena_wf(nodes1),
        nodes1.len() == nodes2.len(),
        forall|m: int, c: int|
            0 <= m < nodes1.len() && 0 <= c < 37 ==> #[trigger] slot(nodes2, m, c) == slot(
                nodes1,
                m,
                c,
            ),
        0 <= n < nodes1.len(),
        valid_key(k),
    ensures
        walk(nodes2, n, k) == walk(nodes1, n, k),
    decreases k.len(),
{
    if k.len() > 0 {
        assert(valid_char(k[0]));
        let t = slot(nodes1, n, char_index(k[0]));
        if t != NO_TRANSITION {
            let rest = k.subrange(1, k.len() as int);
            assert(valid_key(rest)) by {
                assert(forall|i: int| 0 <= i < rest.len() ==> #[trigger] rest[i] == k[i + 1]);
            }
            lemma_walk_same_slots(nodes1, nodes2, t, rest);
        }
    }
}

/// The tagged value at the end of `key`'s path from node `n`.
pub open spec fn walk_val_from(nodes: Seq<Node>, n: int, key: Seq<char>) -> Option<u32> {
    match walk(nodes, n, key) {
        Some(m) => nodes[m].val,
        None => None,
    }
}

/// Shape of one growth step: `nodes2` is `nodes1` with one fresh node
/// appended and the previously empty slot `c` of node `p` now pointing at it.
spec fn grow_shape(nodes1: Seq<Node>, nodes2: Seq<Node>, p: int, c: int) -> bool {
    &&& 0 <= p < nodes1.len()
    &&& 0 <= c < 37
    &&& slot(nodes1, p, c) == NO_TRANSITION
    &&& nodes1.len() + 1 <= NO_TRANSITION
    &&& nodes2.len() == nodes1.len() + 1
    &&& nodes2[p].chars@.len() == 37
    &&& slot(nodes2, p, c) == nodes1.len()
    &&& forall|c2: int| 0 <= c2 < 37 && c2 != c ==> slot(nodes2, p, c2) == slot(nodes1, p, c2)
    &&& nodes2[p].val == nodes1[p].val
    &&& forall|n: int| 0 <= n < nodes1.len() && n != p ==> nodes2[n] == nodes1[n]
    &&& nodes2[nodes1.len() as int].chars@.len() == 37
    &&& forall|c2: int|
        0 <= c2 < 37 ==> slot(nodes2, nodes1.len() as int, c2) == NO_TRANSITION
    &&& nodes2[nodes1.len() as int].val is None
}

/// A growth step does not disturb any existing walk, and stores no new
/// value: the fresh node is empty, so every key keeps its tagged value.
proof fn lemma_grow_walk(
    nodes1: Seq<Node>,
    nodes2: Seq<Node>,
    p: int,
    c: int,
    n: int,
    k: Seq<char>,
)
    requires
        arena_wf(nodes1),
        grow_shape(nodes1, nodes2, p, c),
        0 <= n < nodes1.len(),
        valid_key(k),
    ensures
        walk(nodes1, n, k) is Some ==> walk(nodes2, n, k) == walk(nodes1, n, k),
        walk_val_from(nodes2, n, k) == walk_val_from(nodes1, n, k),
    decreases k.len(),
{
    let len1 = nodes1.len() as int;
    if k.len() == 0 {
        assert(nodes2[n].val == nodes1[n].val);
    } else {
        assert(valid_char(k[0]));
        let ci = char_index(k[0]);
        let rest = k.subrange(1, k.len() as int);
        assert(valid_key(rest)) by {
            assert(forall|i: int| 0 <= i < rest.len() ==> #[trigger] rest[i] == k[i + 1]);
        }
        if n == p && ci == c {
            assert(walk(nodes1, n, k) is None);
            assert(slot(nodes2, n, ci) == len1);
            if rest.len() == 0 {
                assert(walk(nodes2, n, k) == Some(len1));
                assert(nodes2[len1].val is None);
            } else {
                assert(valid_char(rest[0]));
                assert(slot(nodes2, len1, char_index(rest[0])) == NO_TRANSITION);
                assert(walk(nodes2, len1, rest) is None);
            }
        } else {
            assert(slot(nodes2, n, ci) == slot(nodes1, n, ci));
            let t = slot(nodes1, n, ci);
            if t != NO_TRANSITION {
                assert(n < t < len1);
                lemma_grow_walk(nodes1, nodes2, p, c, t, rest);
            }
        }
    }
}

/// A growth step keeps the arena well formed and leaves the represented
/// dictionary unchanged.
proof fn lemma_grow(nodes1: Seq<Node>, nodes2: Seq<Node>, p: int, c: int)
    requires
        arena_wf(nodes1),
        grow_shape(nodes1, nodes2, p, c),
    ensures
        arena_wf(nodes2),
        arena_map(nodes2) == arena_map(nodes1),
        forall|n: int, k: Seq<char>|
            0 <= n < nodes1.len() && valid_key(k) && walk(nodes1, n, k) is Some
                ==> #[trigger] walk(nodes2, n, k) == walk(nodes1, n, k),
{
    let len1 = nodes1.len() as int;
    assert(arena_wf(nodes2)) by {
        assert forall|n: int| 0 <= n < nodes2.len() implies (#[trigger] nodes2[n].chars@).len()
            == 37 by {
            if n < len1 && n != p {
                assert(nodes2[n] == nodes1[n]);
            }
        }
        assert forall|n: int, c2: int|
            0 <= n < nodes2.len() && 0 <= c2 < 37 implies (#[trigger] slot(nodes2, n, c2)
            == NO_TRANSITION || (n < slot(nodes2, n, c2) < nodes2.len())) by {
            if n == p && c2 == c {
            } else if n == len1 {
            } else if n == p {
                assert(slot(nodes2, n, c2) == slot(nodes1, n, c2));
            } else {
                assert(nodes2[n] == nodes1[n]);
                assert(slot(nodes2, n, c2) == slot(nodes1, n, c2));
            }
        }
        assert forall|n1: int, c1: int, n2: int, c2: int|
            0 <= n1 < nodes2.len() && 0 <= c1 < 37 && 0 <= n2 < nodes2.len() && 0 <= c2 < 37
                && #[trigger] slot(nodes2, n1, c1) == #[trigger] slot(nodes2, n2, c2) && slot(
                nodes2,
                n1,
                c1,
            ) != NO_TRANSITION implies n1 == n2 && c1 == c2 by {
            assert(forall|n: int, c3: int|
                0 <= n < nodes2.len() && 0 <= c3 < 37 && !(n == p && c3 == c) && n != len1
                    ==> #[trigger] slot(nodes2, n, c3) == slot(nodes1, n, c3));
            let s = slot(nodes2, n1, c1);
            if s == len1 {
                assert(n1 == p && c1 == c) by {
                    if !(n1 == p && c1 == c) {
                        assert(n1 != len1);
                        assert(slot(nodes1, n1, c1) == len1);
                    }
                }
                assert(n2 == p && c2 == c) by {
                    if !(n2 == p && c2 == c) {
                        assert(n2 != len1);
                        assert(slot(nodes1, n2, c2) == len1);
                    }
                }
            } else {
                assert(!(n1 == p && c1 == c) && n1 != len1);
                assert(!(n2 == p && c2 == c) && n2 != len1);
                assert(slot(nodes1, n1, c1) == s && slot(nodes1, n2, c2) == s);
            }
        }
    }
    assert forall|k: Seq<char>| valid_key(k) implies #[trigger] walk_val(nodes2, k) == walk_val(
        nodes1,
        k,
    ) by {
        lemma_grow_walk(nodes1, nodes2, p, c, 0, k);
    }
    assert(arena_map(nodes2) =~= arena_map(nodes1));
    assert forall|n: int, k: Seq<char>|
        0 <= n < nodes1.len() && valid_key(k) && walk(nodes1, n, k) is Some
            implies #[trigger] walk(nodes2, n, k) == walk(nodes1, n, k) by {
        lemma_grow_walk(nodes1, nodes2, p, c, n, k);
    }
}

/// What an insert stores for a requested value: the transition sentinel is
/// canonicalized to `1` so that no stored value collides with the sentinel;
/// every other value is stored verbatim.
pub open spec fn canon_val(v: Option<u32>) -> Option<u32> {
    match v {
        Some(x) => if x == NO_TRANSITION {
            Some(1u32)
        } else {
            Some(x)
        },
        None => None,
    }
}

/// The error reports the first character of `s` the alphabet rejects.
pub open spec fn reports_first_invalid(e: TrieError, s: Seq<char>) -> bool {
    match e {
        TrieError::InvalidCharacter(c) => exists|i: int|
            is_first_invalid(s, i) && c == s[i],
    }
}

/// Overwriting the tagged value of the node that `key` reaches updates the
/// dictionary at `key` alone: storing a value inserts it, clearing removes
/// the entry.
proof fn lemma_set_val(
    nodes1: Seq<Node>,
    nodes2: Seq<Node>,
    key: Seq<char>,
    p: int,
    v: Option<u32>,
)
    requires
        arena_wf(nodes1),
        valid_key(key),
        walk(nodes1, 0, key) == Some(p),
        0 <= p < nodes1.len(),
        nodes2.len() == nodes1.len(),
        nodes2[p].chars@ == nodes1[p].chars@,
        nodes2[p].val == v,
        forall|n: int| 0 <= n < nodes1.len() && n != p ==> nodes2[n] == nodes1[n],
    ensures
        arena_wf(nodes2),
        arena_map(nodes2) == (match v {
            Some(x) => arena_map(nodes1).insert(key, x),
            None => arena_map(nodes1).remove(key),
        }),
{
    assert(forall|n: int, c: int|
        0 <= n < nodes1.len() && 0 <= c < 37 ==> #[trigger] slot(nodes2, n, c) == slot(
            nodes1,
            n,
            c,
        ));
    assert(arena_wf(nodes2)) by {
        assert forall|n: int| 0 <= n < nodes2.len() implies (#[trigger] nodes2[n].chars@).len()
            == 37 by {
            if n != p {
                assert(nodes2[n] == nodes1[n]);
            }
        }
    }
    assert forall|k: Seq<char>| valid_key(k) implies #[trigger] walk(nodes2, 0, k) == walk(
        nodes1,
        0,
        k,
    ) by {
        lemma_walk_same_slots(nodes1, nodes2, 0, k);
    }
    assert forall|k: Seq<char>| valid_key(k) && k != key implies #[trigger] walk_val(nodes2, k)
        == walk_val(nodes1, k) by {
        lemma_walk_bounds(nodes1, 0, k);
        match walk(nodes1, 0, k) {
            Some(m) => {
                if m == p {
                    lemma_path_unique(nodes1, k, key, p);
                    assert(false);
                }
                assert(nodes2[m] == nodes1[m]);
            },
            None => {},
        }
    }
    assert(walk_val(nodes2, key) == v);
    match v {
        Some(x) => {
            assert(arena_map(nodes2) =~= arena_map(nodes1).insert(key, x));
        },
        None => {
            assert(arena_map(nodes2) =~= arena_map(nodes1).remove(key));
        },
    }
}

/// The trie: node arena with the root at index 0, plus the append-only
/// synonym table.
pub struct Trie {
    /// Node arena; the root is index 0 and is never removed.
    pub nodes: Vec<Node>,
    /// Append-only synonym sets, referenced by synonym-tagged values.
    pub synonym_dict: Vec<Vec<String>>,
}

impl Trie {
    /// Structural invariant of the arena.
    pub open spec fn wf(&self) -> bool {
        arena_wf(self.nodes@)
    }

    /// The dictionary this trie represents.
    pub open spec fn dict(&self) -> Map<Seq<char>, u32> {
        arena_map(self.nodes@)
    }

    /// The synonym table as a sequence of sets of character sequences.
    pub open spec fn syn_table(&self) -> Seq<Seq<Seq<char>>> {
        self.synonym_dict.deep_view()
    }

    /// An empty trie: a root-only arena and an empty synonym table. No key
    /// at all is present, so every search comes back empty.
    pub fn new() -> (t: Trie)
        ensures
            t.wf(),
            t.dict().is_empty(),
            t.syn_table() == Seq::<Seq<Seq<char>>>::empty(),
            t.nodes@.len() == 1,
    {
        let mut nodes: Vec<Node> = Vec::new();
        nodes.push(Node::new());
        let t = Trie { nodes, synonym_dict: Vec::new() };
        proof {
            assert forall|k: Seq<char>| !(valid_key(k) && walk_val(t.nodes@, k) is Some) by {
                if k.len() == 0 {
                    assert(walk_val(t.nodes@, k) is None);
                } else {
                    if valid_key(k) {
                        assert(valid_char(k[0]));
                        assert(slot(t.nodes@, 0, char_index(k[0])) == NO_TRANSITION);
                    }
                }
            }
            assert(t.dict().is_empty()) by {
                assert(t.dict().dom() =~= Set::<Seq<char>>::empty());
            }
            assert(t.syn_table() =~= Seq::<Seq<Seq<char>>>::empty());
        }
        t
    }

    /// The child index stored in node `node_pos` for symbol `ci`, as the
    /// arena records it; `NO_TRANSITION` when the child is absent.
    pub(crate) fn transition(&self, node_pos: usize, ci: usize) -> (t: u32)
        requires
            self.wf(),
            node_pos < self.nodes@.len(),
            ci < 37,
        ensures
            t as int == slot(self.nodes@, node_pos as int, ci as int),
            t != NO_TRANSITION ==> (node_pos as int) < t < self.nodes@.len(),
    {
        proof {
            assert(slot(self.nodes@, node_pos as int, ci as int) == NO_TRANSITION || (
            node_pos as int) < slot(self.nodes@, node_pos as int, ci as int)
                < self.nodes@.len());
        }
        self.nodes[node_pos].chars[ci]
    }

    /// Looks up the exact key: the stored tagged value when every transition
    /// exists and a value terminates the walk, `None` when the walk runs off
    /// the trie or ends without a value, and `InvalidCharacter` when the
    /// alphabet rejects a character of the key.
    pub fn search(&self, string: &str) -> (r: Result<Option<u32>, TrieError>)
        requires
            self.wf(),
        ensures
            match r {
                Ok(v) => {
                    &&& valid_key(string@)
                    &&& v == walk_val(self.nodes@, string@)
                    &&& v is Some <==> self.dict().contains_key(string@)
                    &&& v is Some ==> v == Some(self.dict()[string@])
                },
                Err(e) => !valid_key(string@) && reports_first_invalid(e, string@),
            },
    {
        let n = match validate_str(string) {
            Ok(n) => n,
            Err(c) => {
                return Err(TrieError::InvalidCharacter(c));
            },
        };
        let mut node_pos: usize = 0;
        let mut i: usize = 0;
        while i < n
            invariant
                self.wf(),
                valid_key(string@),
                n == string@.len(),
                i <= n,
                node_pos < self.nodes@.len(),
                walk(self.nodes@, 0, string@.subrange(0, i as int)) == Some(node_pos as int),
            decreases n - i,
        {
            let c = string.get_char(i);
            proof {
                assert(valid_char(string@[i as int]));
                lemma_char_index_bounds(c);
            }
            let ci = char_2_index(c).unwrap();
            let t = self.transition(node_pos, ci);
            let ghost pre = string@.subrange(0, i as int);
            if t == NO_TRANSITION {
                proof {
                    let rest = string@.subrange(i as int, n as int);
                    assert(string@ =~= pre + rest);
                    lemma_walk_append(self.nodes@, 0, pre, rest);
                    assert(rest[0] == string@[i as int]);
                    assert(walk(self.nodes@, 0, string@) is None);
                }
                return Ok(None);
            }
            node_pos = t as usize;
            i = i + 1;
            proof {
                let step = seq![string@[i - 1]];
                assert(string@.subrange(0, i as int) =~= pre + step);
                lemma_walk_append(self.nodes@, 0, pre, step);
                assert(step.subrange(1, 1).len() == 0);
                assert(walk(self.nodes@, node_pos as int, step.subrange(1, 1)) == Some(
                    node_pos as int,
                ));
            }
        }
        proof {
            assert(string@.subrange(0, n as int) =~= string@);
        }
        Ok(self.nodes[node_pos].val)
    }

    /// Walks `string` from the root, appending a fresh node for every missing
    /// transition, and returns the index of the node the full key reaches.
    /// The represented dictionary is untouched: fresh nodes hold no value.
    fn walk_or_create(&mut self, string: &str, n: usize) -> (node_pos: usize)
        requires
            old(self).wf(),
            valid_key(string@),
            n == string@.len(),
            old(self).nodes@.len() + string@.len() <= NO_TRANSITION,
        ensures
            final(self).wf(),
            node_pos < final(self).nodes@.len(),
            walk(final(self).nodes@, 0, string@) == Some(node_pos as int),
            final(self).dict() == old(self).dict(),
            final(self).synonym_dict == old(self).synonym_dict,
            final(self).nodes@.len() <= old(self).nodes@.len() + string@.len(),
    {
        let ghost nodes0 = old(self).nodes@;
        let mut node_pos: usize = 0;
        let mut i: usize = 0;
        while i < n
            invariant
                arena_wf(self.nodes@),
                valid_key(string@),
                n == string@.len(),
                i <= n,
                node_pos < self.nodes@.len(),
                nodes0.len() + n <= NO_TRANSITION,
                self.nodes@.len() <= nodes0.len() + i,
                walk(self.nodes@, 0, string@.subrange(0, i as int)) == Some(node_pos as int),
                arena_map(self.nodes@) == arena_map(nodes0),
                self.synonym_dict == old(self).synonym_dict,
                nodes0 == old(self).nodes@,
            decreases n - i,
        {
            let c = string.get_char(i);
            proof {
                assert(valid_char(string@[i as int]));
                lemma_char_index_bounds(c);
            }
            let ci = char_2_index(c).unwrap();
            let t = self.transition(node_pos, ci);
            let ghost pre = string@.subrange(0, i as int);
            let ghost step = seq![string@[i as int]];
            if t == NO_TRANSITION {
                let ghost nodes1 = self.nodes@;
                let fresh = Node::new();
                self.nodes.push(fresh);
                let new_idx = self.nodes.len() - 1;
                self.nodes[node_pos].chars[ci] = new_idx as u32;
                proof {
                    assert(grow_shape(nodes1, self.nodes@, node_pos as int, ci as int)) by {
                        assert(self.nodes@[node_pos as int].chars@ =~= nodes1[node_pos as int].chars@.update(
                            ci as int,
                            new_idx as u32,
                        ));
                        assert(forall|m: int|
                            0 <= m < nodes1.len() && m != node_pos ==> self.nodes@[m] == nodes1[m]);
                    }
                    lemma_grow(nodes1, self.nodes@, node_pos as int, ci as int);
                    assert(walk(self.nodes@, 0, pre) == Some(node_pos as int));
                    lemma_walk_append(self.nodes@, 0, pre, step);
                    assert(step.subrange(1, 1).len() == 0);
                    assert(slot(self.nodes@, node_pos as int, char_index(step[0])) == new_idx);
                    assert(walk(self.nodes@, new_idx as int, step.subrange(1, 1)) == Some(
                        new_idx as int,
                    ));
                    assert(string@.subrange(0, i + 1) =~= pre + step);
                }
                node_pos = new_idx;
            } else {
                proof {
                    lemma_walk_append(self.nodes@, 0, pre, step);
                    assert(step.subrange(1, 1).len() == 0);
                    assert(walk(self.nodes@, t as int, step.subrange(1, 1)) == Some(t as int));
                    assert(string@.subrange(0, i + 1) =~= pre + step);
                }
                node_pos = t as usize;
            }
            i = i + 1;
        }
        proof {
            assert(string@.subrange(0, n as int) =~= string@);
        }
        node_pos
    }

    /// Inserts `string` with the canonicalized value: the sentinel `u32::MAX`
    /// is stored as `1`, any other value verbatim, and `None` clears the
    /// entry. Any prior value for the key is overwritten. Fails, leaving the
    /// trie unchanged, exactly when the alphabet rejects a character.
    pub fn insert(&mut self, string: &str, val: Option<u32>) -> (r: Result<(), TrieError>)
        requires
            old(self).wf(),
            old(self).nodes@.len() + string@.len() <= NO_TRANSITION,
        ensures
            final(self).wf(),
            final(self).nodes@.len() <= old(self).nodes@.len() + string@.len(),
            match r {
                Ok(_) => {
                    &&& valid_key(string@)
                    &&& final(self).dict() == (match canon_val(val) {
                        Some(x) => old(self).dict().insert(string@, x),
                        None => old(self).dict().remove(string@),
                    })
                    &&& final(self).syn_table() == old(self).syn_table()
                },
                Err(e) => {
                    &&& *final(self) == *old(self)
                    &&& !valid_key(string@)
                    &&& reports_first_invalid(e, string@)
                },
            },
    {
        let n = match validate_str(string) {
            Ok(n) => n,
            Err(c) => {
                return Err(TrieError::InvalidCharacter(c));
            },
        };
        let node_pos = self.walk_or_create(string, n);
        let canon: Option<u32> = match val {
            Some(v) => if v == NO_TRANSITION {
                Some(1u32)
            } else {
                Some(v)
            },
            None => None,
        };
        let ghost nodes_b = self.nodes@;
        self.nodes[node_pos].val = canon;
        proof {
            assert(canon == canon_val(val));
            assert(forall|m: int|
                0 <= m < nodes_b.len() && m != node_pos ==> self.nodes@[m] == nodes_b[m]);
            lemma_set_val(nodes_b, self.nodes@, string@, node_pos as int, canon);
        }
        Ok(())
    }

    /// Inserts `string` as a dictionary entry whose value refers to a fresh
    /// synonym set: `synonyms` is appended to the table and the stored value
    /// is the synonym base plus the new set's index. Fails, leaving the trie
    /// unchanged, exactly when the alphabet rejects a character.
    pub fn insert_synonym(&mut self, string: &str, synonyms: Vec<String>) -> (r: Result<
        (),
        TrieError,
    >)
        requires
            old(self).wf(),
            old(self).nodes@.len() + string@.len() <= NO_TRANSITION,
            old(self).synonym_dict@.len() <= 294967293,
        ensures
            final(self).wf(),
            match r {
                Ok(_) => {
                    &&& valid_key(string@)
                    &&& final(self).dict() == old(self).dict().insert(
                        string@,
                        (SYNONYM_BASE as int + old(self).syn_table().len() as int) as u32,
                    )
                    &&& final(self).syn_table() == old(self).syn_table().push(
                        synonyms.deep_view(),
                    )
                },
                Err(e) => {
                    &&& *final(self) == *old(self)
                    &&& !valid_key(string@)
                    &&& reports_first_invalid(e, string@)
                },
            },
    {
        let n = match validate_str(string) {
            Ok(n) => n,
            Err(c) => {
                return Err(TrieError::InvalidCharacter(c));
            },
        };
        let node_pos = self.walk_or_create(string, n);
        let ghost syns0 = self.synonym_dict.deep_view();
        self.synonym_dict.push(synonyms);
        let idx = self.synonym_dict.len() - 1;
        let tag: u32 = SYNONYM_BASE + (idx as u32);
        let ghost nodes_b = self.nodes@;
        self.nodes[node_pos].val = Some(tag);
        proof {
            assert(self.synonym_dict.deep_view() =~= syns0.push(synonyms.deep_view()));
            assert(forall|m: int|
                0 <= m < nodes_b.len() && m != node_pos ==> self.nodes@[m] == nodes_b[m]);
            lemma_set_val(nodes_b, self.nodes@, string@, node_pos as int, Some(tag));
        }
        Ok(())
    }
}

} // verus!
