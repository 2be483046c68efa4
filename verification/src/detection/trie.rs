use vstd::prelude::*;

use crate::detection::compress;
use crate::errors::CipherError;
use crate::text;

verus! {

/// The mathematical model of a trie node: a sparse association list from
/// characters to child nodes, and a flag that marks the end of an inserted
/// word.
pub ghost struct SpecNode {
    pub children: Seq<(char, SpecNode)>,
    pub is_end: bool,
}

/// The first child of `cs` keyed by `c`, if any.
pub open spec fn spec_child(cs: Seq<(char, SpecNode)>, c: char) -> Option<SpecNode>
    decreases cs.len(),
{
    if cs.len() == 0 {
        None
    } else if cs[0].0 == c {
        Some(cs[0].1)
    } else {
        spec_child(cs.drop_first(), c)
    }
}

/// Whether the word `w` ends, with its end flag set, on a downward path from
/// `v`.
pub open spec fn spec_contains(v: SpecNode, w: Seq<char>) -> bool
    decreases w.len(),
{
    if w.len() == 0 {
        v.is_end
    } else {
        match spec_child(v.children, w[0]) {
            Some(m) => spec_contains(m, w.drop_first()),
            None => false,
        }
    }
}

/// Well-formedness of the model: every node's child keys are distinct, and
/// every node's child count fits the 64-bit count field of the persisted
/// format.
pub open spec fn spec_wf(v: SpecNode) -> bool
    decreases v,
{
    &&& v.children.len() < 0x1_0000_0000_0000_0000
    &&& forall|i: int, j: int|
        0 <= i < j < v.children.len() ==> (#[trigger] v.children[i]).0 != (
        #[trigger] v.children[j]).0
    &&& forall|i: int| 0 <= i < v.children.len() ==> spec_wf((#[trigger] v.children[i]).1)
}

/// The set of words that the subtree rooted at `v` holds.
pub open spec fn spec_words(v: SpecNode) -> Set<Seq<char>> {
    Set::new(|w: Seq<char>| spec_contains(v, w))
}

proof fn lemma_spec_child_at(cs: Seq<(char, SpecNode)>, c: char, j: int)
    requires
        0 <= j < cs.len(),
        cs[j].0 == c,
        forall|l: int| 0 <= l < j ==> (#[trigger] cs[l]).0 != c,
    ensures
        spec_child(cs, c) == Some(cs[j].1),
    decreases j,
{
    if j > 0 {
        lemma_spec_child_at(cs.drop_first(), c, j - 1);
    }
}

proof fn lemma_spec_child_none(cs: Seq<(char, SpecNode)>, c: char)
    requires
        forall|l: int| 0 <= l < cs.len() ==> (#[trigger] cs[l]).0 != c,
    ensures
        spec_child(cs, c) is None,
    decreases cs.len(),
{
    if cs.len() > 0 {
        lemma_spec_child_none(cs.drop_first(), c);
    }
}

/// Looking up `d` ignores entries keyed otherwise, so two lists that agree on
/// their keys and on every entry keyed `d` resolve `d` alike.
proof fn lemma_spec_child_agree(cs1: Seq<(char, SpecNode)>, cs2: Seq<(char, SpecNode)>, d: char)
    requires
        cs1.len() == cs2.len(),
        forall|l: int| 0 <= l < cs1.len() ==> (#[trigger] cs1[l]).0 == (#[trigger] cs2[l]).0,
        forall|l: int|
            0 <= l < cs1.len() && (#[trigger] cs1[l]).0 == d ==> cs1[l].1 == cs2[l].1,
    ensures
        spec_child(cs1, d) == spec_child(cs2, d),
    decreases cs1.len(),
{
    if cs1.len() > 0 && cs1[0].0 != d {
        lemma_spec_child_agree(cs1.drop_first(), cs2.drop_first(), d);
    }
}

/// Appending an entry with a fresh key resolves that key to the new entry and
/// leaves every other key's resolution unchanged.
proof fn lemma_spec_child_push(cs: Seq<(char, SpecNode)>, c: char, m: SpecNode, d: char)
    ensures
        (forall|l: int| 0 <= l < cs.len() ==> (#[trigger] cs[l]).0 != c) ==> spec_child(
            cs.push((c, m)),
            c,
        ) == Some(m),
        d != c ==> spec_child(cs.push((c, m)), d) == spec_child(cs, d),
    decreases cs.len(),
{
    if cs.len() == 0 {
        assert(cs.push((c, m))[0] == (c, m));
    } else {
        assert(cs.push((c, m))[0] == cs[0]);
        assert(cs.push((c, m)).drop_first() =~= cs.drop_first().push((c, m)));
        lemma_spec_child_push(cs.drop_first(), c, m, d);
        if forall|l: int| 0 <= l < cs.len() ==> (#[trigger] cs[l]).0 != c {
            assert forall|l: int|
                0 <= l < cs.drop_first().len() implies (#[trigger] cs.drop_first()[l]).0 != c by {
                assert(cs.drop_first()[l] == cs[l + 1]);
            }
            assert(cs[0].0 != c);
            assert(spec_child(cs.push((c, m)), c) == Some(m));
        }
    }
}

/// Two non-empty sequences with the same head and the same tail are equal.
proof fn lemma_cons_eq(v: Seq<char>, tail: Seq<char>)
    requires
        v.len() > 0,
        tail.len() > 0,
        v[0] == tail[0],
        v.drop_first() == tail.drop_first(),
    ensures
        v == tail,
{
    assert(v.drop_first().len() == v.len() - 1);
    assert(tail.drop_first().len() == tail.len() - 1);
    assert(v.len() == tail.len());
    assert forall|m: int| 0 <= m < v.len() implies v[m] == tail[m] by {
        if m > 0 {
            assert(v.drop_first()[m - 1] == v[m]);
            assert(tail.drop_first()[m - 1] == tail[m]);
        }
    }
    assert(v =~= tail);
}

/// A trie node: sparse child edges plus the end-of-word flag. Children are
/// materialized on demand by insertion; absent edges are never stored.
#[derive(Debug)]
struct TrieNode {
    children: Vec<(char, TrieNode)>,
    is_end_of_word: bool,
}

/// A prefix trie over case-folded words, the dictionary structure behind the
/// language detector.
#[derive(Debug)]
pub struct Trie {
    root: TrieNode,
}

spec fn view_children(cs: Seq<(char, TrieNode)>) -> Seq<(char, SpecNode)>
    decreases cs,
{
    if cs.len() == 0 {
        Seq::empty()
    } else {
        seq![(cs[0].0, node_view(cs[0].1))] + view_children(cs.drop_first())
    }
}

spec fn node_view(n: TrieNode) -> SpecNode
    decreases n,
{
    SpecNode { children: view_children(n.children@), is_end: n.is_end_of_word }
}

proof fn lemma_view_children(cs: Seq<(char, TrieNode)>)
    ensures
        view_children(cs).len() == cs.len(),
        forall|i: int|
            0 <= i < cs.len() ==> #[trigger] view_children(cs)[i] == (
            cs[i].0,
            node_view(cs[i].1),
            ),
    decreases cs.len(),
{
    if cs.len() > 0 {
        lemma_view_children(cs.drop_first());
    }
}

impl View for Trie {
    type V = SpecNode;

    closed spec fn view(&self) -> SpecNode {
        node_view(self.root)
    }
}

impl Trie {
    /// The set of (case-folded) words held by this trie.
    pub open spec fn words(self) -> Set<Seq<char>> {
        spec_words(self@)
    }

    /// The structural invariant: distinct child keys at every node.
    pub open spec fn wf(self) -> bool {
        spec_wf(self@)
    }

    /// An empty trie: no words, not even the empty one.
    pub fn new() -> (t: Trie)
        ensures
            t.wf(),
            t.words() == Set::<Seq<char>>::empty(),
            !t@.is_end,
    {
        let t = Trie { root: TrieNode { children: Vec::new(), is_end_of_word: false } };
        proof {
            assert(t.root.children@ =~= Seq::<(char, TrieNode)>::empty());
            lemma_view_children(t.root.children@);
            assert(t@.children =~= Seq::<(char, SpecNode)>::empty());
            assert forall|w: Seq<char>| !spec_contains(t@, w) by {
                if w.len() > 0 {
                    lemma_spec_child_none(t@.children, w[0]);
                }
            }
            assert(t.words() =~= Set::<Seq<char>>::empty());
        }
        t
    }

    /// Inserts `word`, folded to ASCII lower case, into the trie. Inserting a
    /// word that is already present is a no-op: the whole model, and with it
    /// every membership answer and the enumeration, is unchanged. No other
    /// word's membership is ever affected.
    pub fn insert(&mut self, word: &str)
        requires
            old(self).wf(),
        ensures
            final(self).wf(),
            final(self).words() == old(self).words().insert(text::lower_seq(word@)),
            old(self).words().contains(text::lower_seq(word@)) ==> final(self)@ == old(self)@,
    {
        let chars = text::str_chars(word);
        let lowered = text::lower_vec(&chars);
        let mut root = TrieNode { children: Vec::new(), is_end_of_word: false };
        core::mem::swap(&mut self.root, &mut root);
        let ghost old_view = node_view(root);
        self.root = insert_node(root, &lowered, 0);
        proof {
            assert(lowered@.skip(0) =~= lowered@);
            assert(self.words() =~= spec_words(old_view).insert(text::lower_seq(word@)));
            assert(lowered@ == text::lower_seq(word@));
        }
    }

    /// Encodes the whole trie in the compact persisted format: structure and
    /// end-of-word flags only, absent edges omitted.
    pub fn serialize(&self) -> (r: Vec<u8>)
        ensures
            r@ == spec_ser(self@),
    {
        let mut out: Vec<u8> = Vec::new();
        ser_node(&self.root, &mut out);
        proof {
            assert(out@ =~= spec_ser(self@));
        }
        out
    }

    /// Decodes a persisted trie. Exactly the well-formed encodings are
    /// accepted, with nothing left over; anything else is a `FormatError`.
    pub fn deserialize(bytes: &Vec<u8>) -> (r: Result<Trie, CipherError>)
        ensures
            match r {
                Ok(t) => is_valid_encoding(bytes@) && spec_parse(bytes@, 0) == Some(
                    (t@, bytes@.len() as int),
                ) && t.wf(),
                Err(e) => e == CipherError::FormatError && !is_valid_encoding(bytes@),
            },
    {
        match parse_node(bytes, 0) {
            None => Err(CipherError::FormatError),
            Some((root, p)) => {
                if p != bytes.len() {
                    Err(CipherError::FormatError)
                } else {
                    proof {
                        lemma_parse_wf(bytes@, 0);
                    }
                    Ok(Trie { root })
                }
            },
        }
    }

    /// The serialized trie, gzip-compressed for persistence.
    pub fn to_compressed(&self) -> (r: Vec<u8>)
        ensures
            compress::gunzip_of(r@) == Some(spec_ser(self@)),
    {
        let raw = self.serialize();
        compress::gzip_compress(&raw)
    }

    /// Decompresses and decodes a persisted trie. A stream that is not valid
    /// gzip, or whose decompression is not a well-formed encoding, is a
    /// `FormatError`.
    pub fn from_compressed(bytes: &Vec<u8>) -> (r: Result<Trie, CipherError>)
        ensures
            match r {
                Ok(t) => match compress::gunzip_of(bytes@) {
                    Some(raw) => spec_parse(raw, 0) == Some((t@, raw.len() as int)) && t.wf(),
                    None => false,
                },
                Err(e) => e == CipherError::FormatError && match compress::gunzip_of(bytes@) {
                    Some(raw) => !is_valid_encoding(raw),
                    None => true,
                },
            },
    {
        match compress::gzip_decompress(bytes) {
            None => Err(CipherError::FormatError),
            Some(raw) => Trie::deserialize(&raw),
        }
    }

    /// Whether `word`, folded to ASCII lower case, was inserted as a whole
    /// word. A stored prefix that no insertion ended at does not count.
    pub fn contains(&self, word: &str) -> (r: bool)
        ensures
            r == self.words().contains(text::lower_seq(word@)),
    {
        let chars = text::str_chars(word);
        let lowered = text::lower_vec(&chars);
        let r = node_contains_exec(&self.root, &lowered, 0);
        proof {
            assert(lowered@.skip(0) =~= lowered@);
        }
        r
    }
}

/// A fresh path holding exactly the tail `w[i..]` as its one word.
fn chain_node(w: &Vec<char>, i: usize) -> (r: TrieNode)
    requires
        i <= w@.len(),
    ensures
        spec_wf(node_view(r)),
        forall|v: Seq<char>| spec_contains(node_view(r), v) == (v == w@.skip(i as int)),
    decreases w@.len() - i,
{
    if i == w.len() {
        let r = TrieNode { children: Vec::new(), is_end_of_word: true };
        proof {
            assert(r.children@ =~= Seq::<(char, TrieNode)>::empty());
            lemma_view_children(r.children@);
            assert(node_view(r).children =~= Seq::<(char, SpecNode)>::empty());
            assert(w@.skip(i as int) =~= Seq::<char>::empty());
            assert forall|v: Seq<char>|
                spec_contains(node_view(r), v) == (v == w@.skip(i as int)) by {
                if v.len() == 0 {
                    assert(v =~= w@.skip(i as int));
                } else {
                    lemma_spec_child_none(node_view(r).children, v[0]);
                    assert(v != w@.skip(i as int));
                }
            }
        }
        r
    } else {
        let c = w[i];
        let child = chain_node(w, i + 1);
        let ghost child_view = node_view(child);
        let mut cs: Vec<(char, TrieNode)> = Vec::new();
        cs.push((c, child));
        let r = TrieNode { children: cs, is_end_of_word: false };
        proof {
            lemma_view_children(r.children@);
            let vcs = node_view(r).children;
            assert(vcs.len() == 1);
            assert(vcs[0] == (c, child_view));
            assert forall|v: Seq<char>|
                spec_contains(node_view(r), v) == (v == w@.skip(i as int)) by {
                let tail = w@.skip(i as int);
                assert(tail.len() == w@.len() - i);
                assert(tail[0] == w@[i as int]);
                if v.len() == 0 {
                    assert(v != tail);
                } else if v[0] == c {
                    assert(spec_child(vcs, c) == Some(child_view));
                    assert(spec_contains(node_view(r), v) == spec_contains(
                        child_view,
                        v.drop_first(),
                    ));
                    assert(tail.drop_first() =~= w@.skip(i as int + 1));
                    if v.drop_first() == w@.skip(i as int + 1) {
                        lemma_cons_eq(v, tail);
                    } else {
                        assert(v != tail);
                    }
                } else {
                    lemma_spec_child_none(vcs, v[0]);
                    assert(v != tail);
                }
            }
        }
        r
    }
}

/// The index of the first child of `cs` keyed by `c`, if any.
fn find_child(cs: &Vec<(char, TrieNode)>, c: char) -> (r: Option<usize>)
    ensures
        match r {
            Some(j) => j < cs@.len() && cs@[j as int].0 == c && forall|l: int|
                0 <= l < j ==> (#[trigger] cs@[l]).0 != c,
            None => forall|l: int| 0 <= l < cs@.len() ==> (#[trigger] cs@[l]).0 != c,
        },
{
    let k = cs.len();
    let mut j: usize = 0;
    while j < k
        invariant
            j <= k,
            k == cs@.len(),
            forall|l: int| 0 <= l < j ==> (#[trigger] cs@[l]).0 != c,
        decreases k - j,
    {
        if cs[j].0 == c {
            return Some(j);
        }
        j = j + 1;
    }
    None
}

/// Inserts the tail `w[i..]` below `n`, adding exactly that one word to the
/// subtree.
fn insert_node(n: TrieNode, w: &Vec<char>, i: usize) -> (r: TrieNode)
    requires
        i <= w@.len(),
    ensures
        spec_wf(node_view(n)) ==> spec_wf(node_view(r)),
        forall|v: Seq<char>|
            #[trigger] spec_contains(node_view(r), v) == (v == w@.skip(i as int)
                || spec_contains(node_view(n), v)),
        spec_contains(node_view(n), w@.skip(i as int)) ==> node_view(r) == node_view(n),
    decreases w@.len() - i,
{
    let ghost n0 = node_view(n);
    let ghost old_cs = n.children@;
    proof {
        lemma_view_children(old_cs);
    }
    if i == w.len() {
        let mut r = n;
        r.is_end_of_word = true;
        proof {
            lemma_view_children(r.children@);
            assert(node_view(r).children =~= n0.children);
            assert forall|v: Seq<char>|
                #[trigger] spec_contains(node_view(r), v) == (v == w@.skip(i as int)
                    || spec_contains(n0, v)) by {
                if v.len() == 0 {
                    assert(v =~= w@.skip(i as int));
                } else {
                    assert(v != w@.skip(i as int));
                    assert(spec_child(node_view(r).children, v[0]) == spec_child(
                        n0.children,
                        v[0],
                    ));
                }
            }
            if spec_contains(n0, w@.skip(i as int)) {
                assert(w@.skip(i as int).len() == 0);
                assert(n0.is_end);
                assert(node_view(r).is_end == n0.is_end);
                assert(node_view(r) == n0);
            }
        }
        r
    } else {
        let mut n = n;
        let c = w[i];
        let ghost tail = w@.skip(i as int);
        proof {
            assert(tail.len() == w@.len() - i);
            assert(tail[0] == w@[i as int]);
            assert(tail.drop_first() =~= w@.skip(i as int + 1));
        }
        match find_child(&n.children, c) {
            Some(j) => {
                let pair = n.children.remove(j);
                let old_child = pair.1;
                let ghost old_child_view = node_view(old_child);
                proof {
                    lemma_spec_child_at(n0.children, c, j as int);
                }
                let new_child = insert_node(old_child, w, i + 1);
                let ghost new_child_view = node_view(new_child);
                n.children.insert(j, (c, new_child));
                proof {
                    assert(n.children@ =~= old_cs.update(j as int, (c, new_child)));
                    lemma_view_children(n.children@);
                    let vcs = node_view(n).children;
                    assert(vcs.len() == n0.children.len());
                    assert forall|l: int| 0 <= l < vcs.len() implies (#[trigger] vcs[l]).0
                        == n0.children[l].0 && (l != j as int ==> vcs[l].1
                        == n0.children[l].1) by {
                        if l != j as int {
                            assert(n.children@[l] == old_cs[l]);
                        }
                    }
                    assert(vcs[j as int] == (c, new_child_view));
                    assert forall|v: Seq<char>|
                        #[trigger] spec_contains(node_view(n), v) == (v == tail
                            || spec_contains(n0, v)) by {
                        if v.len() == 0 {
                            assert(v != tail);
                        } else if v[0] == c {
                            lemma_spec_child_at(vcs, c, j as int);
                            assert(spec_contains(node_view(n), v) == spec_contains(
                                new_child_view,
                                v.drop_first(),
                            ));
                            if v.drop_first() == w@.skip(i as int + 1) {
                                lemma_cons_eq(v, tail);
                            } else {
                                assert(v != tail);
                            }
                        } else {
                            lemma_spec_child_agree(vcs, n0.children, v[0]);
                            assert(v != tail);
                        }
                    }
                    assert(spec_wf(n0) ==> spec_wf(node_view(n)));
                    if spec_contains(n0, tail) {
                        assert(spec_child(n0.children, c) == Some(old_child_view));
                        assert(spec_contains(old_child_view, w@.skip(i as int + 1)));
                        assert(node_view(new_child) == old_child_view);
                        assert(n0.children[j as int] == (old_cs[j as int].0, node_view(
                            old_cs[j as int].1,
                        )));
                        assert(vcs[j as int] == n0.children[j as int]);
                        assert(vcs =~= n0.children);
                        assert(node_view(n).is_end == n0.is_end);
                        assert(node_view(n) == n0);
                    }
                }
                n
            },
            None => {
                let new_child = chain_node(w, i + 1);
                let ghost new_child_view = node_view(new_child);
                proof {
                    lemma_spec_child_none(n0.children, c);
                }
                n.children.push((c, new_child));
                proof {
                    lemma_view_children(n.children@);
                    let vcs = node_view(n).children;
                    assert(node_view(n).is_end == n0.is_end);
                    assert(n.children@ =~= old_cs.push((c, new_child)));
                    assert(vcs =~= n0.children.push((c, new_child_view)));
                    assert forall|v: Seq<char>|
                        #[trigger] spec_contains(node_view(n), v) == (v == tail
                            || spec_contains(n0, v)) by {
                        lemma_spec_child_push(n0.children, c, new_child_view, if v.len() > 0 {
                            v[0]
                        } else {
                            c
                        });
                        if v.len() == 0 {
                            assert(v != tail);
                            assert(spec_contains(node_view(n), v) == node_view(n).is_end);
                            assert(spec_contains(n0, v) == n0.is_end);
                        } else if v[0] == c {
                            assert(spec_child(vcs, c) == Some(new_child_view));
                            assert(spec_contains(node_view(n), v) == spec_contains(
                                new_child_view,
                                v.drop_first(),
                            ));
                            assert(spec_child(n0.children, c) is None);
                            assert(!spec_contains(n0, v));
                            if v.drop_first() == w@.skip(i as int + 1) {
                                lemma_cons_eq(v, tail);
                            } else {
                                assert(v != tail);
                            }
                        } else {
                            assert(spec_child(vcs, v[0]) == spec_child(n0.children, v[0]));
                            assert(spec_contains(node_view(n), v) == spec_contains(n0, v));
                            assert(v != tail);
                        }
                    }
                    assert(n.children.len() <= usize::MAX);
                    assert(spec_wf(n0) ==> spec_wf(node_view(n)));
                    assert(!spec_contains(n0, tail));
                }
                n
            },
        }
    }
}

/// Relies on `char::from_u32`: `Some` exactly on Unicode scalar values (below
/// the surrogate range or between it and the maximum code point), returning
/// the character with that code point.
pub assume_specification[ char::from_u32 ](u: u32) -> (r: Option<char>)
    ensures
        (r is Some) == (u < 0xD800 || (0xE000 <= u && u <= 0x10FFFF)),
        r matches Some(c) ==> c == u as char,
;

/// The persisted encoding of a node: one flag byte (1 when a word ends here),
/// the child count as eight little-endian bytes, then each child edge as four
/// little-endian bytes of the character's code point followed by the child's
/// own encoding. Absent edges take no space at all.
pub open spec fn spec_ser(v: SpecNode) -> Seq<u8>
    decreases v,
{
    seq![
        if v.is_end {
            1u8
        } else {
            0u8
        },
    ] + vstd::bytes::spec_u64_to_le_bytes(v.children.len() as u64) + spec_ser_children(v.children)
}

pub open spec fn spec_ser_children(cs: Seq<(char, SpecNode)>) -> Seq<u8>
    decreases cs,
{
    if cs.len() == 0 {
        Seq::empty()
    } else {
        vstd::bytes::spec_u32_to_le_bytes(cs[0].0 as u32) + spec_ser(cs[0].1) + spec_ser_children(
            cs.drop_first(),
        )
    }
}

/// What a structurally valid encoding parses to, and where it ends: `None`
/// on a truncated or malformed prefix, including a flag byte other than 0 or
/// 1, a code point that is no Unicode scalar value, or duplicate child keys.
pub open spec fn spec_parse(bytes: Seq<u8>, pos: int) -> Option<(SpecNode, int)>
    decreases bytes.len() - pos, 0int,
{
    if pos < 0 || pos + 9 > bytes.len() {
        None
    } else {
        let flag = bytes[pos];
        if flag != 0 && flag != 1 {
            None
        } else {
            let cnt = vstd::bytes::spec_u64_from_le_bytes(bytes.subrange(pos + 1, pos + 9));
            match spec_parse_children(bytes, pos + 9, cnt as int) {
                None => None,
                Some((cs, p2)) => Some((SpecNode { children: cs, is_end: flag == 1 }, p2)),
            }
        }
    }
}

pub open spec fn spec_parse_children(bytes: Seq<u8>, pos: int, cnt: int) -> Option<
    (Seq<(char, SpecNode)>, int),
>
    decreases bytes.len() - pos, cnt + 1,
{
    if pos < 0 || cnt < 0 {
        None
    } else if cnt == 0 {
        Some((Seq::empty(), pos))
    } else if pos + 4 > bytes.len() {
        None
    } else {
        let cu = vstd::bytes::spec_u32_from_le_bytes(bytes.subrange(pos, pos + 4));
        if !(cu < 0xD800 || (0xE000 <= cu && cu <= 0x10FFFF)) {
            None
        } else {
            let c = cu as char;
            match spec_parse(bytes, pos + 4) {
                None => None,
                Some((child, p2)) => {
                    if p2 <= pos + 4 || p2 > bytes.len() {
                        None
                    } else {
                        match spec_parse_children(bytes, p2, cnt - 1) {
                            None => None,
                            Some((rest, p3)) => {
                                if spec_child(rest, c) is Some {
                                    None
                                } else {
                                    Some((seq![(c, child)] + rest, p3))
                                }
                            },
                        }
                    }
                },
            }
        }
    }
}

/// Whether `bytes` as a whole is the encoding of exactly one trie.
pub open spec fn is_valid_encoding(bytes: Seq<u8>) -> bool {
    match spec_parse(bytes, 0) {
        Some((v, p)) => p == bytes.len(),
        None => false,
    }
}

fn read_u64_at(bytes: &Vec<u8>, pos: usize) -> (x: u64)
    requires
        pos + 8 <= bytes@.len(),
    ensures
        x == vstd::bytes::spec_u64_from_le_bytes(bytes@.subrange(pos as int, pos as int + 8)),
{
    proof {
        assert(bytes@.len() == bytes.len());
    }
    let s = vstd::slice::slice_subrange(bytes.as_slice(), pos, pos + 8);
    vstd::bytes::u64_from_le_bytes(s)
}

fn read_u32_at(bytes: &Vec<u8>, pos: usize) -> (x: u32)
    requires
        pos + 4 <= bytes@.len(),
    ensures
        x == vstd::bytes::spec_u32_from_le_bytes(bytes@.subrange(pos as int, pos as int + 4)),
{
    proof {
        assert(bytes@.len() == bytes.len());
    }
    let s = vstd::slice::slice_subrange(bytes.as_slice(), pos, pos + 4);
    vstd::bytes::u32_from_le_bytes(s)
}

/// Appending one more child extends the children's encoding at its end.
proof fn lemma_ser_children_push(cs: Seq<(char, SpecNode)>, p: (char, SpecNode))
    ensures
        spec_ser_children(cs.push(p)) == spec_ser_children(cs) + vstd::bytes::spec_u32_to_le_bytes(
            p.0 as u32,
        ) + spec_ser(p.1),
    decreases cs.len(),
{
    vstd::bytes::lemma_auto_spec_u32_to_from_le_bytes();
    let pb = vstd::bytes::spec_u32_to_le_bytes(p.0 as u32);
    if cs.len() == 0 {
        assert(cs.push(p)[0] == p);
        assert(cs.push(p).drop_first() =~= Seq::<(char, SpecNode)>::empty());
        assert(spec_ser_children(Seq::<(char, SpecNode)>::empty()) == Seq::<u8>::empty());
        assert(spec_ser_children(cs.push(p)) == pb + spec_ser(p.1) + Seq::<u8>::empty());
        assert(spec_ser_children(cs) == Seq::<u8>::empty());
        assert(pb + spec_ser(p.1) + Seq::<u8>::empty() =~= spec_ser_children(cs) + pb + spec_ser(
            p.1,
        ));
    } else {
        assert(cs.push(p)[0] == cs[0]);
        assert(cs.push(p).drop_first() =~= cs.drop_first().push(p));
        lemma_ser_children_push(cs.drop_first(), p);
        let hb = vstd::bytes::spec_u32_to_le_bytes(cs[0].0 as u32);
        let rest = spec_ser_children(cs.drop_first());
        assert(spec_ser_children(cs.push(p)) == hb + spec_ser(cs[0].1) + (rest + pb + spec_ser(
            p.1,
        )));
        assert(spec_ser_children(cs) == hb + spec_ser(cs[0].1) + rest);
        assert(hb + spec_ser(cs[0].1) + (rest + pb + spec_ser(p.1)) =~= (hb + spec_ser(cs[0].1)
            + rest) + pb + spec_ser(p.1));
    }
}

fn ser_node(n: &TrieNode, out: &mut Vec<u8>)
    ensures
        final(out)@ == old(out)@ + spec_ser(node_view(*n)),
    decreases *n,
{
    proof {
        lemma_view_children(n.children@);
        vstd::bytes::lemma_auto_spec_u64_to_from_le_bytes();
    }
    if n.is_end_of_word {
        out.push(1);
    } else {
        out.push(0);
    }
    let cnt = n.children.len() as u64;
    let mut le = vstd::bytes::u64_to_le_bytes(cnt);
    out.append(&mut le);
    let ghost header_done = out@;
    proof {
        assert(node_view(*n).children.len() == n.children@.len());
        assert(spec_ser_children(node_view(*n).children.subrange(0, 0)) == Seq::<u8>::empty())
            by {
            assert(node_view(*n).children.subrange(0, 0) =~= Seq::<(char, SpecNode)>::empty());
        }
        assert(header_done + Seq::<u8>::empty() =~= header_done);
    }
    let k = n.children.len();
    let mut j: usize = 0;
    while j < k
        invariant
            j <= k,
            k == n.children@.len(),
            node_view(*n).children.len() == k,
            out@ == header_done + spec_ser_children(node_view(*n).children.subrange(0, j as int)),
            forall|l: int|
                0 <= l < k ==> #[trigger] node_view(*n).children[l] == (
                n.children@[l].0,
                node_view(n.children@[l].1),
                ),
        decreases k - j,
    {
        let ghost done = node_view(*n).children.subrange(0, j as int);
        let mut cb = vstd::bytes::u32_to_le_bytes(n.children[j].0 as u32);
        out.append(&mut cb);
        ser_node(&n.children[j].1, out);
        proof {
            lemma_ser_children_push(done, node_view(*n).children[j as int]);
            assert(node_view(*n).children.subrange(0, j as int + 1) =~= done.push(
                node_view(*n).children[j as int],
            ));
            assert(out@ =~= header_done + spec_ser_children(
                node_view(*n).children.subrange(0, j as int + 1),
            ));
        }
        j = j + 1;
    }
    proof {
        assert(node_view(*n).children.subrange(0, k as int) =~= node_view(*n).children);
        assert(header_done =~= old(out)@ + seq![
            if n.is_end_of_word {
                1u8
            } else {
                0u8
            },
        ] + vstd::bytes::spec_u64_to_le_bytes(node_view(*n).children.len() as u64));
        assert(out@ =~= old(out)@ + spec_ser(node_view(*n)));
    }
}

fn parse_node(bytes: &Vec<u8>, pos: usize) -> (r: Option<(TrieNode, usize)>)
    requires
        pos <= bytes@.len(),
    ensures
        match r {
            Some((n, p2)) => spec_parse(bytes@, pos as int) == Some((node_view(n), p2 as int))
                && pos <= p2 <= bytes@.len(),
            None => spec_parse(bytes@, pos as int) is None,
        },
    decreases bytes@.len() - pos, 0int,
{
    if bytes.len() - pos < 9 {
        return None;
    }
    let flag = bytes[pos];
    if flag > 1 {
        return None;
    }
    let cnt = read_u64_at(bytes, pos + 1);
    match parse_children(bytes, pos + 9, cnt) {
        None => None,
        Some((cs, p2)) => {
            let n = TrieNode { children: cs, is_end_of_word: flag == 1 };
            Some((n, p2))
        },
    }
}

fn parse_children(bytes: &Vec<u8>, pos: usize, cnt: u64) -> (r: Option<
    (Vec<(char, TrieNode)>, usize),
>)
    requires
        pos <= bytes@.len(),
    ensures
        match r {
            Some((cs, p2)) => spec_parse_children(bytes@, pos as int, cnt as int) == Some(
                (view_children(cs@), p2 as int),
            ) && pos <= p2 <= bytes@.len(),
            None => spec_parse_children(bytes@, pos as int, cnt as int) is None,
        },
    decreases bytes@.len() - pos, cnt as int + 1,
{
    if cnt == 0 {
        let cs: Vec<(char, TrieNode)> = Vec::new();
        proof {
            assert(cs@ =~= Seq::<(char, TrieNode)>::empty());
            lemma_view_children(cs@);
            assert(view_children(cs@) =~= Seq::<(char, SpecNode)>::empty());
        }
        return Some((cs, pos));
    }
    if bytes.len() - pos < 4 {
        return None;
    }
    let cu = read_u32_at(bytes, pos);
    match char::from_u32(cu) {
        None => None,
        Some(c) => {
            match parse_node(bytes, pos + 4) {
                None => None,
                Some((child, p2)) => {
                    if p2 <= pos + 4 {
                        return None;
                    }
                    let ghost child_view = node_view(child);
                    match parse_children(bytes, p2, cnt - 1) {
                        None => None,
                        Some((rest, p3)) => {
                            let ghost rest_views = view_children(rest@);
                            proof {
                                lemma_view_children(rest@);
                            }
                            match find_child(&rest, c) {
                                Some(dup) => {
                                    proof {
                                        lemma_spec_child_at(rest_views, c, dup as int);
                                    }
                                    None
                                },
                                None => {
                                    proof {
                                        lemma_spec_child_none(rest_views, c);
                                    }
                                    let mut cs = rest;
                                    cs.insert(0, (c, child));
                                    proof {
                                        lemma_view_children(cs@);
                                        assert(view_children(cs@) =~= seq![(c, child_view)]
                                            + rest_views);
                                    }
                                    Some((cs, p3))
                                },
                            }
                        },
                    }
                },
            }
        },
    }
}

/// A parsed node is well-formed: the parser rejects duplicate child keys, and
/// a 64-bit count field cannot overflow the well-formedness bound.
proof fn lemma_parse_wf(bytes: Seq<u8>, pos: int)
    requires
        spec_parse(bytes, pos) is Some,
    ensures
        spec_wf((spec_parse(bytes, pos)->0).0),
    decreases bytes.len() - pos, 0int,
{
    let cnt = vstd::bytes::spec_u64_from_le_bytes(bytes.subrange(pos + 1, pos + 9));
    lemma_parse_children_wf(bytes, pos + 9, cnt as int);
}

proof fn lemma_parse_children_wf(bytes: Seq<u8>, pos: int, cnt: int)
    requires
        spec_parse_children(bytes, pos, cnt) is Some,
    ensures
        ({
            let cs = (spec_parse_children(bytes, pos, cnt)->0).0;
            &&& cs.len() == cnt
            &&& forall|i: int, j: int|
                0 <= i < j < cs.len() ==> (#[trigger] cs[i]).0 != (#[trigger] cs[j]).0
            &&& forall|i: int| 0 <= i < cs.len() ==> spec_wf((#[trigger] cs[i]).1)
        }),
    decreases bytes.len() - pos, cnt + 1,
{
    if cnt == 0 {
    } else {
        let cu = vstd::bytes::spec_u32_from_le_bytes(bytes.subrange(pos, pos + 4));
        let c = cu as char;
        let (child, p2) = spec_parse(bytes, pos + 4)->0;
        lemma_parse_wf(bytes, pos + 4);
        lemma_parse_children_wf(bytes, p2, cnt - 1);
        let rest = (spec_parse_children(bytes, p2, cnt - 1)->0).0;
        lemma_spec_child_none_keys(rest, c);
        let cs = (spec_parse_children(bytes, pos, cnt)->0).0;
        assert(cs =~= seq![(c, child)] + rest);
        assert forall|i: int, j: int|
            0 <= i < j < cs.len() implies (#[trigger] cs[i]).0 != (#[trigger] cs[j]).0 by {
            if i > 0 {
                assert(cs[i] == rest[i - 1]);
                assert(cs[j] == rest[j - 1]);
            } else {
                assert(cs[j] == rest[j - 1]);
            }
        }
        assert forall|i: int| 0 <= i < cs.len() implies spec_wf((#[trigger] cs[i]).1) by {
            if i > 0 {
                assert(cs[i] == rest[i - 1]);
            }
        }
    }
}

/// When no entry resolves, no entry carries the key at all.
proof fn lemma_spec_child_none_keys(cs: Seq<(char, SpecNode)>, c: char)
    requires
        spec_child(cs, c) is None,
    ensures
        forall|l: int| 0 <= l < cs.len() ==> (#[trigger] cs[l]).0 != c,
    decreases cs.len(),
{
    if cs.len() > 0 {
        lemma_spec_child_none_keys(cs.drop_first(), c);
        assert forall|l: int| 0 <= l < cs.len() implies (#[trigger] cs[l]).0 != c by {
            if l > 0 {
                assert(cs[l] == cs.drop_first()[l - 1]);
            }
        }
    }
}


/// A subrange of an already-pinned subrange of `bytes` equals the matching
/// part of the pinned value.
proof fn lemma_subrange_of_subrange(bytes: Seq<u8>, pos: int, total: Seq<u8>, off: int, amt: int)
    requires
        0 <= pos,
        pos + total.len() <= bytes.len(),
        bytes.subrange(pos, pos + total.len() as int) == total,
        0 <= off,
        0 <= amt,
        off + amt <= total.len(),
    ensures
        bytes.subrange(pos + off, pos + off + amt) == total.subrange(off, off + amt),
{
    assert forall|k: int|
        0 <= k < amt implies #[trigger] bytes.subrange(pos + off, pos + off + amt)[k]
        == total.subrange(off, off + amt)[k] by {
        assert(bytes.subrange(pos + off, pos + off + amt)[k] == bytes[pos + off + k]);
        assert(bytes.subrange(pos, pos + total.len() as int)[off + k] == bytes[pos + off + k]);
        assert(total.subrange(off, off + amt)[k] == total[off + k]);
    }
    assert(bytes.subrange(pos + off, pos + off + amt) =~= total.subrange(off, off + amt));
}

/// The three pieces of a triple concatenation, recovered by subranges.
proof fn lemma_triple_slices(a: Seq<u8>, b: Seq<u8>, c: Seq<u8>)
    ensures
        (a + b + c).len() == a.len() + b.len() + c.len(),
        (a + b + c).subrange(0, a.len() as int) == a,
        (a + b + c).subrange(a.len() as int, (a.len() + b.len()) as int) == b,
        (a + b + c).subrange((a.len() + b.len()) as int, (a.len() + b.len() + c.len()) as int)
            == c,
{
    let t = a + b + c;
    assert(t.subrange(0, a.len() as int) =~= a);
    assert(t.subrange(a.len() as int, (a.len() + b.len()) as int) =~= b);
    assert(t.subrange((a.len() + b.len()) as int, (a.len() + b.len() + c.len()) as int) =~= c);
}

/// The encoding of a node is at least its nine header bytes long.
proof fn lemma_ser_min_len(v: SpecNode)
    ensures
        spec_ser(v).len() >= 9,
        spec_ser(v).len() == 9 + spec_ser_children(v.children).len(),
{
    vstd::bytes::lemma_auto_spec_u64_to_from_le_bytes();
}

/// Parsing reads back exactly what serialization wrote: a well-formed node's
/// encoding, wherever it stands in a larger byte stream, parses to that very
/// node and ends right after it.
proof fn lemma_parse_ser_node(bytes: Seq<u8>, pos: int, v: SpecNode)
    requires
        spec_wf(v),
        0 <= pos,
        pos + spec_ser(v).len() <= bytes.len(),
        bytes.subrange(pos, pos + spec_ser(v).len() as int) == spec_ser(v),
    ensures
        spec_parse(bytes, pos) == Some((v, pos + spec_ser(v).len())),
    decreases v,
{
    vstd::bytes::lemma_auto_spec_u64_to_from_le_bytes();
    let sv = spec_ser(v);
    let flag_seq = seq![
        if v.is_end {
            1u8
        } else {
            0u8
        },
    ];
    let lenb = vstd::bytes::spec_u64_to_le_bytes(v.children.len() as u64);
    let body = spec_ser_children(v.children);
    lemma_triple_slices(flag_seq, lenb, body);
    assert(sv.len() == 9 + body.len());
    assert(bytes[pos] == sv[0]) by {
        assert(bytes.subrange(pos, pos + sv.len() as int)[0] == bytes[pos]);
    }
    assert(sv[0] == flag_seq[0]) by {
        assert(sv.subrange(0, 1) == flag_seq);
        assert(sv.subrange(0, 1)[0] == sv[0]);
    }
    lemma_subrange_of_subrange(bytes, pos, sv, 1, 8);
    assert(bytes.subrange(pos + 1, pos + 9) == lenb);
    assert(vstd::bytes::spec_u64_from_le_bytes(bytes.subrange(pos + 1, pos + 9))
        == v.children.len() as u64);
    lemma_subrange_of_subrange(bytes, pos, sv, 9, body.len() as int);
    assert(bytes.subrange(pos + 9, pos + 9 + body.len()) == body);
    lemma_parse_ser_children(bytes, pos + 9, v.children);
    assert((v.children.len() as u64) as int == v.children.len());
    assert(spec_parse_children(bytes, pos + 9, v.children.len() as int) == Some(
        (v.children, pos + 9 + body.len()),
    ));
    let flag = sv[0];
    assert(flag == 0 <==> !v.is_end);
    assert(flag == 1 <==> v.is_end);
    assert(spec_parse(bytes, pos) == Some(
        (SpecNode { children: v.children, is_end: flag == 1 }, pos + sv.len()),
    ));
    assert(SpecNode { children: v.children, is_end: flag == 1 } == v);
}

proof fn lemma_parse_ser_children(bytes: Seq<u8>, pos: int, cs: Seq<(char, SpecNode)>)
    requires
        cs.len() < 0x1_0000_0000_0000_0000,
        forall|i: int, j: int|
            0 <= i < j < cs.len() ==> (#[trigger] cs[i]).0 != (#[trigger] cs[j]).0,
        forall|i: int| 0 <= i < cs.len() ==> spec_wf((#[trigger] cs[i]).1),
        0 <= pos,
        pos + spec_ser_children(cs).len() <= bytes.len(),
        bytes.subrange(pos, pos + spec_ser_children(cs).len() as int) == spec_ser_children(cs),
    ensures
        spec_parse_children(bytes, pos, cs.len() as int) == Some(
            (cs, pos + spec_ser_children(cs).len()),
        ),
    decreases cs,
{
    vstd::bytes::lemma_auto_spec_u32_to_from_le_bytes();
    if cs.len() == 0 {
        assert(cs =~= Seq::<(char, SpecNode)>::empty());
    } else {
        let c = cs[0].0;
        let child = cs[0].1;
        let cb = vstd::bytes::spec_u32_to_le_bytes(c as u32);
        let sb = spec_ser(child);
        let rest = spec_ser_children(cs.drop_first());
        let sc = spec_ser_children(cs);
        assert(sc == cb + sb + rest);
        lemma_triple_slices(cb, sb, rest);
        assert(sc.len() == 4 + sb.len() + rest.len());
        lemma_ser_min_len(child);
        lemma_subrange_of_subrange(bytes, pos, sc, 0, 4);
        assert(bytes.subrange(pos, pos + 4) == cb);
        assert(vstd::bytes::spec_u32_from_le_bytes(bytes.subrange(pos, pos + 4)) == c as u32);
        vstd::utf8::char_is_scalar(c);
        vstd::utf8::char_u32_cast(c, c as u32);
        assert((c as u32) < 0xD800 || (0xE000 <= (c as u32) && (c as u32) <= 0x10FFFF));
        assert((c as u32) as char == c);
        lemma_subrange_of_subrange(bytes, pos, sc, 4, sb.len() as int);
        assert(bytes.subrange(pos + 4, pos + 4 + sb.len()) == sb);
        lemma_parse_ser_node(bytes, pos + 4, child);
        let p2 = pos + 4 + sb.len();
        assert(spec_parse(bytes, pos + 4) == Some((child, p2)));
        assert(p2 > pos + 4);
        lemma_subrange_of_subrange(bytes, pos, sc, 4 + sb.len() as int, rest.len() as int);
        assert(bytes.subrange(p2, p2 + rest.len()) == rest);
        let d = cs.drop_first();
        assert(d.len() == cs.len() - 1);
        assert forall|i: int, j: int|
            0 <= i < j < d.len() implies (#[trigger] d[i]).0 != (#[trigger] d[j]).0 by {
            assert(d[i] == cs[i + 1]);
            assert(d[j] == cs[j + 1]);
        }
        assert forall|i: int| 0 <= i < d.len() implies spec_wf((#[trigger] d[i]).1) by {
            assert(d[i] == cs[i + 1]);
        }
        lemma_parse_ser_children(bytes, p2, d);
        assert(spec_parse_children(bytes, p2, d.len() as int) == Some((d, p2 + rest.len())));
        assert forall|l: int| 0 <= l < d.len() implies (#[trigger] d[l]).0 != c by {
            assert(d[l] == cs[l + 1]);
            assert(cs[0].0 != cs[l + 1].0);
        }
        lemma_spec_child_none(d, c);
        assert(seq![(c, child)] + d =~= cs);
        assert(cs.len() as int - 1 == d.len() as int);
        assert(spec_parse_children(bytes, pos, cs.len() as int) == Some((cs, pos + sc.len())));
    }
}

/// Round trip of the persisted format: the encoding of a well-formed trie
/// parses back to exactly that trie, consuming all of its bytes. Hence a
/// deserialized serialization answers every membership query as the original
/// did.
pub proof fn lemma_serialize_round_trip(v: SpecNode)
    requires
        spec_wf(v),
    ensures
        spec_parse(spec_ser(v), 0) == Some((v, spec_ser(v).len() as int)),
        is_valid_encoding(spec_ser(v)),
{
    let sv = spec_ser(v);
    assert(sv.subrange(0, sv.len() as int) =~= sv);
    lemma_parse_ser_node(sv, 0, v);
}


/// The words below `v`, each prefixed with `prefix`, in depth-first order:
/// a word that ends at `v` itself comes first, then each child's words in
/// child order.
pub open spec fn words_list(prefix: Seq<char>, v: SpecNode) -> Seq<Seq<char>>
    decreases v,
{
    (if v.is_end {
        seq![prefix]
    } else {
        Seq::empty()
    }) + children_lists(prefix, v.children)
}

pub open spec fn children_lists(prefix: Seq<char>, cs: Seq<(char, SpecNode)>) -> Seq<Seq<char>>
    decreases cs,
{
    if cs.len() == 0 {
        Seq::empty()
    } else {
        words_list(prefix.push(cs[0].0), cs[0].1) + children_lists(prefix, cs.drop_first())
    }
}

/// Membership in a concatenation is membership in either part.
proof fn lemma_concat_contains(a: Seq<Seq<char>>, b: Seq<Seq<char>>, x: Seq<char>)
    ensures
        (a + b).contains(x) == (a.contains(x) || b.contains(x)),
{
    if a.contains(x) {
        let i = choose|i: int| 0 <= i < a.len() && a[i] == x;
        assert((a + b)[i] == x);
    }
    if b.contains(x) {
        let i = choose|i: int| 0 <= i < b.len() && b[i] == x;
        assert((a + b)[a.len() + i] == x);
    }
    if (a + b).contains(x) {
        let i = choose|i: int| 0 <= i < (a + b).len() && (a + b)[i] == x;
        if i < a.len() {
            assert(a[i] == x);
        } else {
            assert(b[i - a.len()] == x);
        }
    }
}

/// When a lookup resolves, some entry carries exactly that key and node.
proof fn lemma_spec_child_index(cs: Seq<(char, SpecNode)>, c: char, m: SpecNode)
    requires
        spec_child(cs, c) == Some(m),
    ensures
        exists|i: int| 0 <= i < cs.len() && cs[i] == (c, m),
    decreases cs.len(),
{
    if cs.len() > 0 && cs[0].0 != c {
        lemma_spec_child_index(cs.drop_first(), c, m);
        let i = choose|i: int| 0 <= i < cs.drop_first().len() && cs.drop_first()[i] == (c, m);
        assert(cs[i + 1] == (c, m));
    } else {
        assert(cs[0] == (c, m));
    }
}

/// The enumeration below a well-formed node is exactly its word set, each
/// entry carrying the prefix, and free of duplicates.
proof fn lemma_words_list(prefix: Seq<char>, v: SpecNode)
    requires
        spec_wf(v),
    ensures
        forall|x: Seq<char>|
            #[trigger] words_list(prefix, v).contains(x) <==> (exists|w: Seq<char>|
                spec_contains(v, w) && x == prefix + w),
        forall|x: Seq<char>|
            #[trigger] words_list(prefix, v).contains(x) ==> x.len() >= prefix.len()
                && x.take(prefix.len() as int) == prefix,
        words_list(prefix, v).no_duplicates(),
    decreases v,
{
    let head: Seq<Seq<char>> = if v.is_end {
        seq![prefix]
    } else {
        Seq::empty()
    };
    lemma_children_lists(prefix, v.children);
    assert forall|x: Seq<char>|
        #[trigger] words_list(prefix, v).contains(x) implies ((exists|w: Seq<char>|
        spec_contains(v, w) && x == prefix + w) && x.len() >= prefix.len() && x.take(
        prefix.len() as int,
    ) == prefix) by {
        lemma_concat_contains(head, children_lists(prefix, v.children), x);
        if head.contains(x) {
            assert(x == prefix);
            assert(spec_contains(v, Seq::<char>::empty()));
            assert(x == prefix + Seq::<char>::empty()) by {
                assert(prefix + Seq::<char>::empty() =~= prefix);
            }
            assert(x.take(prefix.len() as int) =~= prefix);
        } else {
            assert(children_lists(prefix, v.children).contains(x));
            let (i, w) = choose|i: int, w: Seq<char>|
                0 <= i < v.children.len() && #[trigger] spec_contains(v.children[i].1, w)
                    && x == prefix.push(v.children[i].0) + w;
            let c = v.children[i].0;
            let full = seq![c] + w;
            assert(full[0] == c);
            assert(full.drop_first() =~= w);
            lemma_spec_child_at(v.children, c, i);
            assert(spec_contains(v, full));
            assert(x == prefix + full) by {
                assert(prefix.push(c) + w =~= prefix + (seq![c] + w));
            }
            assert(x.take(prefix.len() as int) =~= prefix);
        }
    }
    assert forall|x: Seq<char>| (exists|w: Seq<char>|
        spec_contains(v, w) && x == prefix + w) implies #[trigger] words_list(
        prefix,
        v,
    ).contains(x) by {
        let w = choose|w: Seq<char>| spec_contains(v, w) && x == prefix + w;
        lemma_concat_contains(head, children_lists(prefix, v.children), x);
        if w.len() == 0 {
            assert(x == prefix + w);
            assert(prefix + w =~= prefix);
            assert(head[0] == prefix);
            assert(head.contains(prefix));
        } else {
            let c = w[0];
            let m = spec_child(v.children, c)->0;
            lemma_spec_child_index(v.children, c, m);
            let i = choose|i: int| 0 <= i < v.children.len() && v.children[i] == (c, m);
            assert(spec_contains(m, w.drop_first()));
            assert(x == prefix.push(c) + w.drop_first()) by {
                assert(prefix.push(c) + w.drop_first() =~= prefix + w);
            }
            assert(0 <= i < v.children.len() && spec_contains(
                (v.children[i]).1,
                w.drop_first(),
            ) && x == prefix.push(v.children[i].0) + w.drop_first());
        }
    }
    assert(words_list(prefix, v).no_duplicates()) by {
        let tail = children_lists(prefix, v.children);
        assert forall|i: int, j: int|
            0 <= i < j < words_list(prefix, v).len() implies words_list(prefix, v)[i]
            != words_list(prefix, v)[j] by {
            if v.is_end && i == 0 {
                assert(words_list(prefix, v)[0] == prefix);
                assert(words_list(prefix, v)[j] == tail[j - 1]);
                assert(tail.contains(tail[j - 1]));
                assert(tail[j - 1].len() > prefix.len());
            } else {
                let base: int = if v.is_end {
                    1
                } else {
                    0
                };
                assert(words_list(prefix, v)[i] == tail[i - base]);
                assert(words_list(prefix, v)[j] == tail[j - base]);
            }
        }
    }
}

proof fn lemma_children_lists(prefix: Seq<char>, cs: Seq<(char, SpecNode)>)
    requires
        forall|i: int, j: int|
            0 <= i < j < cs.len() ==> (#[trigger] cs[i]).0 != (#[trigger] cs[j]).0,
        forall|i: int| 0 <= i < cs.len() ==> spec_wf((#[trigger] cs[i]).1),
    ensures
        forall|x: Seq<char>|
            #[trigger] children_lists(prefix, cs).contains(x) <==> (exists|i: int, w: Seq<char>|
                0 <= i < cs.len() && #[trigger] spec_contains(cs[i].1, w) && x == prefix.push(
                    cs[i].0,
                ) + w),
        forall|x: Seq<char>|
            #[trigger] children_lists(prefix, cs).contains(x) ==> x.len() > prefix.len()
                && x.take(prefix.len() as int) == prefix,
        children_lists(prefix, cs).no_duplicates(),
    decreases cs,
{
    if cs.len() == 0 {
        assert(children_lists(prefix, cs).no_duplicates());
    } else {
        let c0 = cs[0].0;
        let head = words_list(prefix.push(c0), cs[0].1);
        let d = cs.drop_first();
        lemma_words_list(prefix.push(c0), cs[0].1);
        assert forall|i: int, j: int|
            0 <= i < j < d.len() implies (#[trigger] d[i]).0 != (#[trigger] d[j]).0 by {
            assert(d[i] == cs[i + 1]);
            assert(d[j] == cs[j + 1]);
        }
        assert forall|i: int| 0 <= i < d.len() implies spec_wf((#[trigger] d[i]).1) by {
            assert(d[i] == cs[i + 1]);
        }
        lemma_children_lists(prefix, d);
        assert forall|x: Seq<char>|
            #[trigger] children_lists(prefix, cs).contains(x) implies ((exists|
                i: int,
                w: Seq<char>,
            |
                0 <= i < cs.len() && #[trigger] spec_contains(cs[i].1, w) && x == prefix.push(
                    cs[i].0,
                ) + w) && x.len() > prefix.len() && x.take(prefix.len() as int) == prefix) by {
            lemma_concat_contains(head, children_lists(prefix, d), x);
            if head.contains(x) {
                let w = choose|w: Seq<char>|
                    spec_contains(cs[0].1, w) && x == prefix.push(c0) + w;
                assert(0 <= 0 < cs.len() && spec_contains((cs[0]).1, w) && x == prefix.push(
                    cs[0].0,
                ) + w);
                assert(x.len() >= prefix.push(c0).len());
                assert(x.take(prefix.push(c0).len() as int) == prefix.push(c0));
                assert(x.take(prefix.len() as int) =~= prefix) by {
                    assert forall|k: int| 0 <= k < prefix.len() implies x.take(
                        prefix.len() as int,
                    )[k] == prefix[k] by {
                        assert(x.take(prefix.push(c0).len() as int)[k] == x[k]);
                        assert(prefix.push(c0)[k] == prefix[k]);
                    }
                }
            } else {
                let (i, w) = choose|i: int, w: Seq<char>|
                    0 <= i < d.len() && #[trigger] spec_contains(d[i].1, w) && x
                        == prefix.push(d[i].0) + w;
                assert(d[i] == cs[i + 1]);
                assert(0 <= i + 1 < cs.len() && spec_contains((cs[i + 1]).1, w) && x
                    == prefix.push(cs[i + 1].0) + w);
            }
        }
        assert forall|x: Seq<char>| (exists|i: int, w: Seq<char>|
            0 <= i < cs.len() && #[trigger] spec_contains(cs[i].1, w) && x == prefix.push(
                cs[i].0,
            ) + w) implies #[trigger] children_lists(prefix, cs).contains(x) by {
            let (i, w) = choose|i: int, w: Seq<char>|
                0 <= i < cs.len() && #[trigger] spec_contains(cs[i].1, w) && x == prefix.push(
                    cs[i].0,
                ) + w;
            lemma_concat_contains(head, children_lists(prefix, d), x);
            if i == 0 {
                assert(head.contains(x));
            } else {
                assert(d[i - 1] == cs[i]);
                assert(0 <= i - 1 < d.len() && spec_contains((d[i - 1]).1, w) && x
                    == prefix.push(d[i - 1].0) + w);
                assert(children_lists(prefix, d).contains(x));
            }
        }
        assert(children_lists(prefix, cs).no_duplicates()) by {
            let tail = children_lists(prefix, d);
            let full = children_lists(prefix, cs);
            assert forall|i: int, j: int| 0 <= i < j < full.len() implies full[i] != full[j] by {
                if i < head.len() && j < head.len() {
                    assert(full[i] == head[i]);
                    assert(full[j] == head[j]);
                } else if i >= head.len() {
                    assert(full[i] == tail[i - head.len()]);
                    assert(full[j] == tail[j - head.len()]);
                } else {
                    let x = full[i];
                    let y = full[j];
                    assert(x == head[i]);
                    assert(y == tail[j - head.len()]);
                    assert(head.contains(x));
                    assert(tail.contains(y));
                    assert(x.len() > prefix.len());
                    assert(x.take(prefix.push(c0).len() as int) == prefix.push(c0));
                    assert(x[prefix.len() as int] == c0) by {
                        assert(x.take(prefix.push(c0).len() as int)[prefix.len() as int]
                            == x[prefix.len() as int]);
                        assert(prefix.push(c0)[prefix.len() as int] == c0);
                    }
                    let (l, yw) = choose|l: int, w: Seq<char>|
                        0 <= l < d.len() && #[trigger] spec_contains(d[l].1, w) && y
                            == prefix.push(d[l].0) + w;
                    assert(y[prefix.len() as int] == d[l].0) by {
                        assert(y == prefix.push(d[l].0) + yw);
                        assert(prefix.push(d[l].0).len() == prefix.len() + 1);
                        assert(y[prefix.len() as int] == prefix.push(d[l].0)[prefix.len() as int]);
                    }
                    assert(d[l] == cs[l + 1]);
                    assert(cs[0].0 != cs[l + 1].0);
                }
            }
        }
    }
}

/// Enumeration completeness: the depth-first word list of a well-formed trie
/// holds exactly the trie's word set, each word once. Sorting the
/// enumeration therefore yields the sorted word set.
pub proof fn lemma_enumeration_complete(v: SpecNode)
    requires
        spec_wf(v),
    ensures
        forall|w: Seq<char>|
            #[trigger] words_list(Seq::empty(), v).contains(w) <==> spec_words(v).contains(w),
        words_list(Seq::empty(), v).no_duplicates(),
{
    lemma_words_list(Seq::empty(), v);
    assert forall|w: Seq<char>|
        #[trigger] words_list(Seq::empty(), v).contains(w) <==> spec_words(v).contains(w) by {
        if spec_words(v).contains(w) {
            assert(spec_contains(v, w) && w == Seq::<char>::empty() + w) by {
                assert(Seq::<char>::empty() + w =~= w);
            }
        }
        if words_list(Seq::empty(), v).contains(w) {
            let u = choose|u: Seq<char>| spec_contains(v, u) && w == Seq::<char>::empty() + u;
            assert(Seq::<char>::empty() + u =~= u);
        }
    }
}


/// The ghost view of one iterator stack entry: the prefix under which a
/// pending subtree is still to be enumerated, and that subtree's model.
spec fn entry_views(st: Seq<(Vec<char>, TrieNode)>) -> Seq<(Seq<char>, SpecNode)> {
    Seq::new(st.len(), |i: int| (st[i].0@, node_view(st[i].1)))
}

/// The words still to come from a stack of pending subtrees: the top
/// subtree's words first, then the rest of the stack.
spec fn stack_remaining(entries: Seq<(Seq<char>, SpecNode)>) -> Seq<Seq<char>>
    decreases entries.len(),
{
    if entries.len() == 0 {
        Seq::empty()
    } else {
        words_list(entries.last().0, entries.last().1) + stack_remaining(entries.drop_last())
    }
}

/// The number of nodes in a subtree. Every call of `TrieIterator::next`
/// consumes at least one stacked node, which bounds the walk.
spec fn node_size(v: SpecNode) -> nat
    decreases v,
{
    1 + children_sizes(v.children)
}

spec fn children_sizes(cs: Seq<(char, SpecNode)>) -> nat
    decreases cs,
{
    if cs.len() == 0 {
        0
    } else {
        node_size(cs[0].1) + children_sizes(cs.drop_first())
    }
}

spec fn stack_size(entries: Seq<(Seq<char>, SpecNode)>) -> nat
    decreases entries.len(),
{
    if entries.len() == 0 {
        0
    } else {
        node_size(entries.last().1) + stack_size(entries.drop_last())
    }
}

fn vec_push_copy(prefix: &Vec<char>, c: char) -> (r: Vec<char>)
    ensures
        r@ == prefix@.push(c),
{
    let n = prefix.len();
    let mut r: Vec<char> = Vec::new();
    let mut i: usize = 0;
    while i < n
        invariant
            i <= n,
            n == prefix@.len(),
            r@ =~= prefix@.take(i as int),
        decreases n - i,
    {
        r.push(prefix[i]);
        proof {
            assert(r@ =~= prefix@.take(i as int + 1));
        }
        i = i + 1;
    }
    r.push(c);
    proof {
        assert(r@ =~= prefix@.push(c));
    }
    r
}

/// A deep copy of a subtree, with the very same model.
fn clone_node(n: &TrieNode) -> (r: TrieNode)
    ensures
        node_view(r) == node_view(*n),
    decreases *n,
{
    proof {
        lemma_view_children(n.children@);
    }
    let k = n.children.len();
    let mut cs: Vec<(char, TrieNode)> = Vec::new();
    let mut j: usize = 0;
    while j < k
        invariant
            j <= k,
            k == n.children@.len(),
            cs@.len() == j,
            forall|l: int|
                0 <= l < j ==> (#[trigger] cs@[l]).0 == n.children@[l].0 && node_view(cs@[l].1)
                    == node_view(n.children@[l].1),
        decreases k - j,
    {
        let child = clone_node(&n.children[j].1);
        cs.push((n.children[j].0, child));
        j = j + 1;
    }
    let r = TrieNode { children: cs, is_end_of_word: n.is_end_of_word };
    proof {
        lemma_view_children(r.children@);
        assert(node_view(r).children =~= node_view(*n).children);
        assert(node_view(r) == node_view(*n));
    }
    r
}

/// A lazy enumeration of a trie's words: a stack of pending subtrees, each
/// word produced on demand, in depth-first order.
pub struct TrieIterator {
    stack: Vec<(Vec<char>, TrieNode)>,
}

impl TrieIterator {
    /// The words this iterator has yet to yield, in order.
    pub closed spec fn remaining(self) -> Seq<Seq<char>> {
        stack_remaining(entry_views(self.stack@))
    }

    /// Yields the next word of the enumeration, or `None` when every word
    /// has been yielded. Each call walks only as far as the next word, so a
    /// caller that stops early never pays for the rest of the dictionary.
    pub fn next(&mut self) -> (r: Option<String>)
        ensures
            match r {
                Some(w) => old(self).remaining().len() > 0 && w@ == old(self).remaining()[0]
                    && final(self).remaining() == old(self).remaining().drop_first(),
                None => old(self).remaining().len() == 0 && final(self).remaining() == old(
                    self,
                ).remaining(),
            },
    {
        loop
            invariant
                self.remaining() == old(self).remaining(),
            decreases stack_size(entry_views(self.stack@)),
        {
            let ghost pre_entries = entry_views(self.stack@);
            match self.stack.pop() {
                None => {
                    proof {
                        assert(pre_entries =~= Seq::<(Seq<char>, SpecNode)>::empty());
                        assert(self.remaining() =~= Seq::<Seq<char>>::empty());
                    }
                    return None;
                },
                Some(entry) => {
                    let (prefix, node) = entry;
                    let ghost nv = node_view(node);
                    let ghost base = entry_views(self.stack@);
                    proof {
                        assert(base =~= pre_entries.drop_last());
                        assert(pre_entries.last() == (prefix@, nv));
                        assert(stack_remaining(pre_entries) == words_list(prefix@, nv)
                            + stack_remaining(base));
                        assert(stack_size(pre_entries) == node_size(nv) + stack_size(base));
                        lemma_view_children(node.children@);
                        assert(nv.children.skip(nv.children.len() as int) =~= Seq::<
                            (char, SpecNode),
                        >::empty());
                        assert(children_lists(prefix@, Seq::<(char, SpecNode)>::empty())
                            == Seq::<Seq<char>>::empty());
                        assert(children_sizes(Seq::<(char, SpecNode)>::empty()) == 0);
                    }
                    let k = node.children.len();
                    let mut j: usize = k;
                    while j > 0
                        invariant
                            j <= k,
                            k == node.children@.len(),
                            nv == node_view(node),
                            nv.children.len() == k,
                            forall|l: int|
                                0 <= l < k ==> #[trigger] nv.children[l] == (
                                node.children@[l].0,
                                node_view(node.children@[l].1),
                                ),
                            stack_remaining(entry_views(self.stack@)) == children_lists(
                                prefix@,
                                nv.children.skip(j as int),
                            ) + stack_remaining(base),
                            stack_size(entry_views(self.stack@)) == children_sizes(
                                nv.children.skip(j as int),
                            ) + stack_size(base),
                        decreases j,
                    {
                        j = j - 1;
                        let ghost before = entry_views(self.stack@);
                        let np = vec_push_copy(&prefix, node.children[j].0);
                        let child = clone_node(&node.children[j].1);
                        self.stack.push((np, child));
                        proof {
                            let e = (np@, node_view(child));
                            assert(entry_views(self.stack@) =~= before.push(e));
                            assert(before.push(e).last() == e);
                            assert(before.push(e).drop_last() =~= before);
                            assert(stack_remaining(before.push(e)) == words_list(e.0, e.1)
                                + stack_remaining(before));
                            assert(stack_size(before.push(e)) == node_size(e.1) + stack_size(
                                before,
                            ));
                            assert(nv.children.skip(j as int)[0] == nv.children[j as int]);
                            assert(nv.children.skip(j as int).drop_first() =~= nv.children.skip(
                                j as int + 1,
                            ));
                            assert(e.0 == prefix@.push(nv.children[j as int].0));
                            assert(e.1 == nv.children[j as int].1);
                            assert(children_lists(prefix@, nv.children.skip(j as int))
                                == words_list(
                                prefix@.push(nv.children[j as int].0),
                                nv.children[j as int].1,
                            ) + children_lists(prefix@, nv.children.skip(j as int + 1)));
                            assert(children_sizes(nv.children.skip(j as int)) == node_size(
                                nv.children[j as int].1,
                            ) + children_sizes(nv.children.skip(j as int + 1)));
                            assert(stack_remaining(entry_views(self.stack@)) =~= children_lists(
                                prefix@,
                                nv.children.skip(j as int),
                            ) + stack_remaining(base));
                        }
                    }
                    proof {
                        assert(nv.children.skip(0) =~= nv.children);
                    }
                    if node.is_end_of_word {
                        let w = text::chars_to_string(&prefix);
                        proof {
                            let head = seq![prefix@];
                            let tail_words = children_lists(prefix@, nv.children)
                                + stack_remaining(base);
                            assert(words_list(prefix@, nv) == head + children_lists(
                                prefix@,
                                nv.children,
                            ));
                            assert(old(self).remaining() =~= head + tail_words);
                            assert((head + tail_words)[0] == prefix@);
                            assert((head + tail_words).drop_first() =~= tail_words);
                            assert(self.remaining() =~= tail_words);
                        }
                        return Some(w);
                    }
                    proof {
                        assert(words_list(prefix@, nv) == Seq::<Seq<char>>::empty()
                            + children_lists(prefix@, nv.children));
                        assert(Seq::<Seq<char>>::empty() + children_lists(prefix@, nv.children)
                            =~= children_lists(prefix@, nv.children));
                        assert(self.remaining() == old(self).remaining());
                        assert(stack_size(entry_views(self.stack@)) < stack_size(pre_entries));
                    }
                },
            }
        }
    }
}

impl Trie {
    /// A fresh, lazy enumeration of every word in the trie, each exactly
    /// once (the depth-first order is an implementation detail; callers
    /// should sort before comparing).
    pub fn iter_words(&self) -> (it: TrieIterator)
        ensures
            it.remaining() == words_list(Seq::empty(), self@),
    {
        let root = clone_node(&self.root);
        let ghost rv = node_view(root);
        let prefix: Vec<char> = Vec::new();
        let mut stack: Vec<(Vec<char>, TrieNode)> = Vec::new();
        stack.push((prefix, root));
        let it = TrieIterator { stack };
        proof {
            let es = entry_views(it.stack@);
            assert(es.len() == 1);
            assert(es.last().0 =~= Seq::<char>::empty());
            assert(es.last() == (Seq::<char>::empty(), rv));
            assert(es.drop_last() =~= Seq::<(Seq<char>, SpecNode)>::empty());
            assert(stack_remaining(Seq::<(Seq<char>, SpecNode)>::empty()) == Seq::<
                Seq<char>,
            >::empty());
            assert(it.remaining() == words_list(Seq::empty(), rv) + Seq::<Seq<char>>::empty());
            assert(it.remaining() =~= words_list(Seq::empty(), self@));
        }
        it
    }
}

/// Case-insensitivity of membership: a word, its ASCII-upper-cased form and
/// its ASCII-lower-cased form answer `contains` alike, as does any spelling
/// with the same case folding.
pub proof fn lemma_contains_case_insensitive(t: Trie, w: Seq<char>, w2: Seq<char>)
    requires
        text::lower_seq(w2) == text::lower_seq(w),
    ensures
        t.words().contains(text::lower_seq(text::upper_seq(w))) == t.words().contains(
            text::lower_seq(w),
        ),
        t.words().contains(text::lower_seq(text::lower_seq(w))) == t.words().contains(
            text::lower_seq(w),
        ),
        t.words().contains(text::lower_seq(w2)) == t.words().contains(text::lower_seq(w)),
{
    text::lemma_lower_of_upper(w);
    text::lemma_lower_seq_idempotent(w);
}

/// Prefix independence: inserting a word adds exactly that word to the set;
/// any other word, in particular each proper prefix of the inserted one,
/// keeps its previous membership.
pub proof fn lemma_insert_prefix_independent(s: Set<Seq<char>>, w: Seq<char>, v: Seq<char>)
    requires
        v != w,
    ensures
        s.insert(w).contains(v) == s.contains(v),
{
}

fn node_contains_exec(n: &TrieNode, w: &Vec<char>, i: usize) -> (r: bool)
    requires
        i <= w@.len(),
    ensures
        r == spec_contains(node_view(*n), w@.skip(i as int)),
    decreases w@.len() - i,
{
    proof {
        lemma_view_children(n.children@);
    }
    if i == w.len() {
        proof {
            assert(w@.skip(i as int) =~= Seq::<char>::empty());
        }
        n.is_end_of_word
    } else {
        let c = w[i];
        let ghost tail = w@.skip(i as int);
        proof {
            assert(tail.len() == w@.len() - i);
            assert(tail[0] == w@[i as int]);
            assert(tail.drop_first() =~= w@.skip(i as int + 1));
        }
        match find_child(&n.children, c) {
            Some(j) => {
                proof {
                    lemma_spec_child_at(node_view(*n).children, c, j as int);
                }
                node_contains_exec(&n.children[j].1, w, i + 1)
            },
            None => {
                proof {
                    lemma_spec_child_none(node_view(*n).children, c);
                }
                false
            },
        }
    }
}

} // verus!
