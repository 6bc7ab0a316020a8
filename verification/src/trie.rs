use vstd::prelude::*;
use crate::util::graphemes;
use crate::util::graphemes_of;

verus! {

/// A prefix tree keyed on grapheme clusters. A node maps single grapheme
/// cluster strings to child nodes and optionally carries a payload; a key's
/// payload lives only at the node reached by consuming every grapheme of the
/// key. `len` counts the stored entries: the keys that insertions have
/// created, each once.
pub struct Trie<T> {
    root: TrieNode<T>,
    pub len: usize,
}

pub struct TrieNode<T> {
    children: Vec<(String, TrieNode<T>)>,
    data: Option<T>,
}

/// A lookup result: the payload of the deepest payload-carrying node reached
/// along the query, and the number of grapheme clusters consumed to reach it.
pub struct TrieResult<T> {
    pub depth: usize,
    pub value: T,
}

impl<T> TrieResult<T> {
    pub fn new(depth: usize, value: T) -> (r: Self)
        ensures
            r.depth == depth,
            r.value == value,
    {
        TrieResult { depth, value }
    }
}

/// Position of the first entry whose key reads `k`, or -1 if there is none.
pub(crate) open spec fn find_key<V>(cs: Seq<(String, V)>, k: Seq<char>) -> int
    decreases cs.len(),
{
    if cs.len() == 0 {
        -1
    } else if cs[0].0@ == k {
        0
    } else {
        let r = find_key(cs.drop_first(), k);
        if r < 0 {
            -1
        } else {
            r + 1
        }
    }
}

pub(crate) proof fn lemma_find_key_props<V>(cs: Seq<(String, V)>, k: Seq<char>)
    ensures
        find_key(cs, k) == -1 ==> forall|i: int| 0 <= i < cs.len() ==> cs[i].0@ != k,
        find_key(cs, k) != -1 ==> {
            let r = find_key(cs, k);
            &&& 0 <= r < cs.len()
            &&& cs[r].0@ == k
            &&& forall|j: int| 0 <= j < r ==> cs[j].0@ != k
        },
    decreases cs.len(),
{
    if cs.len() == 0 {
    } else if cs[0].0@ == k {
    } else {
        lemma_find_key_props(cs.drop_first(), k);
        let r = find_key(cs.drop_first(), k);
        if r == -1 {
            assert(forall|i: int| 0 <= i < cs.len() ==> cs[i].0@ != k) by {
                assert(forall|i: int| 1 <= i < cs.len() ==> cs[i] == cs.drop_first()[i - 1]);
            }
        } else {
            assert(cs.drop_first()[r] == cs[r + 1]);
            assert(forall|j: int| 1 <= j < r + 1 ==> cs[j] == cs.drop_first()[j - 1]);
        }
    }
}

impl<T> TrieNode<T> {
    /// The child reached by the grapheme cluster `k`, if any.
    pub closed spec fn child(self, k: Seq<char>) -> Option<TrieNode<T>> {
        let i = find_key(self.children@, k);
        if i >= 0 {
            Some(self.children@[i].1)
        } else {
            None
        }
    }

    /// The payload stored at exactly the grapheme path `ks`.
    pub closed spec fn get_path(self, ks: Seq<Seq<char>>) -> Option<T>
        decreases ks.len(),
    {
        if ks.len() == 0 {
            self.data
        } else {
            match self.child(ks[0]) {
                Some(c) => c.get_path(ks.drop_first()),
                None => None,
            }
        }
    }

    /// Longest-match lookup along `q`: the payload of the deepest
    /// payload-carrying node on `q`'s grapheme path, with its depth. The
    /// node's own payload (depth 0) is never reported.
    pub closed spec fn search_path(self, q: Seq<Seq<char>>) -> Option<(T, nat)>
        decreases q.len(),
    {
        if q.len() == 0 {
            None
        } else {
            match self.child(q[0]) {
                None => None,
                Some(c) => match c.search_path(q.drop_first()) {
                    Some(vd) => Some((vd.0, (vd.1 + 1) as nat)),
                    None => match c.data {
                        Some(v) => Some((v, 1nat)),
                        None => None,
                    },
                },
            }
        }
    }

    /// The mapping from grapheme cluster paths to payloads stored below this node.
    pub closed spec fn path_contents(self) -> Map<Seq<Seq<char>>, T> {
        Map::new(
            |ks: Seq<Seq<char>>| self.get_path(ks) is Some,
            |ks: Seq<Seq<char>>| self.get_path(ks)->0,
        )
    }

    pub fn new() -> (r: Self)
        ensures
            forall|ks: Seq<Seq<char>>| #[trigger] r.get_path(ks) is None,
    {
        let r = TrieNode { children: Vec::new(), data: None };
        proof {
            assert forall|ks: Seq<Seq<char>>| #[trigger] r.get_path(ks) is None by {
                if ks.len() != 0 {
                    assert(find_key(r.children@, ks[0]) == -1);
                }
            }
        }
        r
    }
}

/// Position of the first entry keyed `k@`, or `None` if there is none.
pub(crate) fn find_child_index<V>(cs: &Vec<(String, V)>, k: &String) -> (r: Option<usize>)
    ensures
        match r {
            Some(i) => i < cs@.len() && find_key(cs@, k@) == i as int,
            None => find_key(cs@, k@) == -1,
        },
{
    let mut i: usize = 0;
    while i < cs.len()
        invariant
            i <= cs@.len(),
            forall|j: int| 0 <= j < i ==> cs@[j].0@ != k@,
        decreases cs@.len() - i,
    {
        if cs[i].0.eq(k) {
            proof {
                lemma_find_key_props(cs@, k@);
            }
            return Some(i);
        }
        i = i + 1;
    }
    proof {
        lemma_find_key_props(cs@, k@);
    }
    None
}

/// `find_key` is unchanged when an entry is replaced by one with the same key.
pub(crate) proof fn lemma_find_key_update<V>(
    cs: Seq<(String, V)>,
    j: int,
    p: (String, V),
    k: Seq<char>,
)
    requires
        0 <= j < cs.len(),
        p.0@ == cs[j].0@,
    ensures
        find_key(cs.update(j, p), k) == find_key(cs, k),
    decreases cs.len(),
{
    if cs.len() == 0 {
    } else if j == 0 {
        assert(cs.update(j, p)[0] == p);
        if cs[0].0@ == k {
        } else {
            assert(cs.update(j, p).drop_first() =~= cs.drop_first());
        }
    } else {
        assert(cs.update(j, p)[0] == cs[0]);
        if cs[0].0@ == k {
        } else {
            assert(cs.update(j, p).drop_first() =~= cs.drop_first().update(j - 1, p));
            lemma_find_key_update(cs.drop_first(), j - 1, p, k);
        }
    }
}

/// `find_key` after appending an entry: an existing first match stays; a new
/// key is found at the end.
pub(crate) proof fn lemma_find_key_push<V>(
    cs: Seq<(String, V)>,
    p: (String, V),
    k: Seq<char>,
)
    ensures
        find_key(cs.push(p), k) == if find_key(cs, k) >= 0 {
            find_key(cs, k)
        } else if p.0@ == k {
            cs.len() as int
        } else {
            -1
        },
    decreases cs.len(),
{
    if cs.len() == 0 {
        assert(cs.push(p)[0] == p);
        assert(cs.push(p).drop_first() =~= Seq::<(String, V)>::empty());
        assert(find_key(Seq::<(String, V)>::empty(), k) == -1);
    } else {
        assert(cs.push(p)[0] == cs[0]);
        if cs[0].0@ == k {
        } else {
            assert(cs.push(p).drop_first() =~= cs.drop_first().push(p));
            lemma_find_key_push(cs.drop_first(), p, k);
        }
    }
}

/// Sets `data` as the payload of the grapheme path `g[i..]` below `node`,
/// replacing any payload already there and leaving every other path
/// unchanged; reports whether the path already carried a payload.
fn insert_path<T>(node: &mut TrieNode<T>, g: &Vec<String>, i: usize, data: T) -> (was: bool)
    requires
        i <= g@.len(),
    ensures
        forall|ks: Seq<Seq<char>>| #[trigger] final(node).get_path(ks) == if ks
            == g.deep_view().skip(i as int) {
            Some(data)
        } else {
            old(node).get_path(ks)
        },
        was == (old(node).get_path(g.deep_view().skip(i as int)) is Some),
    decreases g@.len() - i,
{
    let ghost suffix = g.deep_view().skip(i as int);
    if i == g.len() {
        let was = node.data.is_some();
        node.data = Some(data);
        proof {
            assert(suffix =~= Seq::<Seq<char>>::empty());
            assert forall|ks: Seq<Seq<char>>| #[trigger] node.get_path(ks) == if ks == suffix {
                Some(data)
            } else {
                old(node).get_path(ks)
            } by {
                if ks.len() == 0 {
                    assert(ks =~= suffix);
                } else {
                    assert(ks != suffix);
                    assert(node.children == old(node).children);
                }
            }
        }
        was
    } else {
        let k = &g[i];
        proof {
            assert(suffix[0] == g.deep_view()[i as int]);
            assert(g.deep_view()[i as int] == g@[i as int]@);
            assert(suffix.drop_first() =~= g.deep_view().skip(i as int + 1));
        }
        match find_child_index(&node.children, k) {
            Some(j) => {
                let ghost cs0 = node.children@;
                let mut pair = node.children.remove(j);
                let ghost oldpair = pair;
                let was = insert_path(&mut pair.1, g, i + 1, data);
                let ghost pair_snap = pair;
                node.children.insert(j, pair);
                proof {
                    assert(node.children@ =~= cs0.update(j as int, pair_snap));
                    assert(pair_snap.0@ == cs0[j as int].0@);
                    assert(oldpair == cs0[j as int]);
                    assert(old(node).child(suffix[0]) == Some(oldpair.1));
                    assert(old(node).get_path(suffix) == oldpair.1.get_path(suffix.drop_first()));
                    lemma_find_key_props(cs0, k@);
                    assert forall|ks: Seq<Seq<char>>| #[trigger] node.get_path(ks) == if ks
                        == suffix {
                        Some(data)
                    } else {
                        old(node).get_path(ks)
                    } by {
                        if ks.len() == 0 {
                            assert(ks != suffix);
                        } else {
                            lemma_find_key_update(cs0, j as int, pair_snap, ks[0]);
                            let f = find_key(cs0, ks[0]);
                            lemma_find_key_props(cs0, ks[0]);
                            if ks[0] == k@ {
                                assert(f == j as int);
                                assert(node.children@[j as int].1 == pair_snap.1);
                                assert(oldpair.1 == cs0[j as int].1);
                                assert(node.child(ks[0]) == Some(pair_snap.1));
                                assert(old(node).child(ks[0]) == Some(oldpair.1));
                                assert(node.get_path(ks) == pair_snap.1.get_path(ks.drop_first()));
                                assert(old(node).get_path(ks) == oldpair.1.get_path(ks.drop_first()));
                                if ks.drop_first() == suffix.drop_first() {
                                    assert forall|m: int| 0 <= m < ks.len() implies ks[m]
                                        == suffix[m] by {
                                        if m > 0 {
                                            assert(ks[m] == ks.drop_first()[m - 1]);
                                            assert(suffix[m] == suffix.drop_first()[m - 1]);
                                        }
                                    }
                                    assert(ks =~= suffix);
                                    assert(node.get_path(ks) == Some(data));
                                } else {
                                    assert(ks != suffix);
                                    assert(ks.drop_first() != g.deep_view().skip(i as int + 1));
                                    assert(node.get_path(ks) == old(node).get_path(ks));
                                }
                            } else {
                                assert(ks != suffix);
                                if f >= 0 {
                                    assert(f != j as int);
                                    assert(node.children@[f] == cs0[f]);
                                    assert(node.child(ks[0]) == Some(cs0[f].1));
                                    assert(old(node).child(ks[0]) == Some(cs0[f].1));
                                } else {
                                    assert(node.child(ks[0]) is None);
                                    assert(old(node).child(ks[0]) is None);
                                }
                                assert(node.get_path(ks) == old(node).get_path(ks));
                            }
                        }
                    }
                }
                was
            },
            None => {
                let ghost cs0 = node.children@;
                let mut child = TrieNode::new();
                let ghost fresh = child;
                insert_path(&mut child, g, i + 1, data);
                let was = false;
                let kc = k.clone();
                let ghost p = (kc, child);
                node.children.push((kc, child));
                proof {
                    assert(node.children@ =~= cs0.push(p));
                    assert(p.0@ == k@);
                    assert(old(node).child(suffix[0]) is None);
                    assert(old(node).get_path(suffix) is None);
                    assert forall|ks: Seq<Seq<char>>| #[trigger] node.get_path(ks) == if ks
                        == suffix {
                        Some(data)
                    } else {
                        old(node).get_path(ks)
                    } by {
                        if ks.len() == 0 {
                            assert(ks != suffix);
                            assert(node.get_path(ks) == old(node).get_path(ks));
                        } else {
                            lemma_find_key_push(cs0, p, ks[0]);
                            let f = find_key(cs0, ks[0]);
                            lemma_find_key_props(cs0, ks[0]);
                            if f >= 0 {
                                assert(ks[0] != k@);
                                assert(ks != suffix);
                                assert(node.children@[f] == cs0[f]);
                                assert(node.child(ks[0]) == Some(cs0[f].1));
                                assert(old(node).child(ks[0]) == Some(cs0[f].1));
                                assert(node.get_path(ks) == old(node).get_path(ks));
                            } else if ks[0] == k@ {
                                assert(find_key(node.children@, ks[0]) == cs0.len() as int);
                                assert(node.children@[cs0.len() as int].1 == p.1);
                                assert(node.child(ks[0]) == Some(p.1));
                                assert(old(node).child(ks[0]) is None);
                                assert(node.get_path(ks) == p.1.get_path(ks.drop_first()));
                                assert(old(node).get_path(ks) is None);
                                if ks.drop_first() == suffix.drop_first() {
                                    assert forall|m: int| 0 <= m < ks.len() implies ks[m]
                                        == suffix[m] by {
                                        if m > 0 {
                                            assert(ks[m] == ks.drop_first()[m - 1]);
                                            assert(suffix[m] == suffix.drop_first()[m - 1]);
                                        }
                                    }
                                    assert(ks =~= suffix);
                                    assert(node.get_path(ks) == Some(data));
                                } else {
                                    assert(ks != suffix);
                                    assert(ks.drop_first() != g.deep_view().skip(i as int + 1));
                                    assert(fresh.get_path(ks.drop_first()) is None);
                                    assert(node.get_path(ks) == old(node).get_path(ks));
                                }
                            } else {
                                assert(ks != suffix);
                                assert(node.child(ks[0]) is None);
                                assert(old(node).child(ks[0]) is None);
                                assert(node.get_path(ks) == old(node).get_path(ks));
                            }
                        }
                    }
                }
                was
            },
        }
    }
}

impl<T> Trie<T> {
    /// The number of grapheme clusters consumed by all insertions so far.
    pub closed spec fn spec_len(self) -> usize {
        self.len
    }

    /// The mapping from grapheme cluster paths to stored payloads.
    pub closed spec fn contents(self) -> Map<Seq<Seq<char>>, T> {
        self.root.path_contents()
    }

    pub fn new() -> (r: Self)
        ensures
            r.contents() == Map::<Seq<Seq<char>>, T>::empty(),
            r.spec_len() == 0,
    {
        let r = Trie { root: TrieNode::new(), len: 0 };
        proof {
            assert(r.contents() =~= Map::<Seq<Seq<char>>, T>::empty());
        }
        r
    }

    /// Walks `key`'s grapheme clusters from the root and reports the payload
    /// of the deepest payload-carrying node visited, with the number of
    /// clusters consumed to reach it: the payload of the longest inserted key
    /// that is a non-empty grapheme prefix of `key`. `None` when no such key
    /// was inserted.
    pub fn get<'a>(&'a self, key: &str) -> (r: Option<TrieResult<&'a T>>)
        ensures
            match_view(r) == longest_match(self.contents(), graphemes_of(key@)),
    {
        let g = graphemes(key);
        let ghost q = g.deep_view();
        let mut current: &TrieNode<T> = &self.root;
        let mut last: Option<TrieResult<&T>> = None;
        let mut i: usize = 0;
        proof {
            assert(q.skip(0) =~= q);
        }
        while i < g.len()
            invariant
                i <= g@.len(),
                q == g.deep_view(),
                q == graphemes_of(key@),
                self.root.search_path(q) == match current.search_path(q.skip(i as int)) {
                    Some(vd) => Some((vd.0, (vd.1 + i) as nat)),
                    None => match_view(last),
                },
            decreases g@.len() - i,
        {
            proof {
                assert(q.skip(i as int)[0] == g@[i as int]@);
                assert(q.skip(i as int).drop_first() =~= q.skip(i as int + 1));
            }
            match find_child_index(&current.children, &g[i]) {
                Some(j) => {
                    let c: &TrieNode<T> = &current.children[j].1;
                    proof {
                        assert(current.child(q.skip(i as int)[0]) == Some(*c));
                    }
                    if let Some(d) = &c.data {
                        last = Some(TrieResult { depth: i + 1, value: d });
                    }
                    current = c;
                },
                None => {
                    proof {
                        assert(current.search_path(q.skip(i as int)) is None);
                        assert(match_view(last) == self.root.search_path(q));
                        lemma_search_path_longest(self.root, q);
                        assert(q == graphemes_of(key@));
                        assert(self.contents() == self.root.path_contents());
                    }
                    return last;
                },
            }
            i = i + 1;
        }
        proof {
            assert(q.skip(i as int).len() == 0);
            assert(current.search_path(q.skip(i as int)) is None);
            lemma_search_path_longest(self.root, q);
        }
        last
    }

    /// Builds a trie by inserting the given key/payload pairs in order; a
    /// later pair with an equal key replaces the earlier payload.
    pub fn from_vec(data: Vec<(String, T)>) -> (r: Self)
        ensures
            r.contents() == insert_all(
                Map::<Seq<Seq<char>>, T>::empty(),
                data@.map_values(|p: (String, T)| (p.0@, p.1)),
            ),
            r.spec_len() == if new_keys(
                Map::<Seq<Seq<char>>, T>::empty(),
                data@.map_values(|p: (String, T)| (p.0@, p.1)),
            ) <= usize::MAX {
                new_keys(
                    Map::<Seq<Seq<char>>, T>::empty(),
                    data@.map_values(|p: (String, T)| (p.0@, p.1)),
                ) as int
            } else {
                usize::MAX as int
            },
    {
        let ghost entries0 = data@.map_values(|p: (String, T)| (p.0@, p.1));
        let ghost goal_len: int = if new_keys(Map::<Seq<Seq<char>>, T>::empty(), entries0)
            <= usize::MAX {
            new_keys(Map::<Seq<Seq<char>>, T>::empty(), entries0) as int
        } else {
            usize::MAX as int
        };
        let mut trie = Trie::new();
        let mut data = data;
        while data.len() > 0
            invariant
                insert_all(trie.contents(), data@.map_values(|p: (String, T)| (p.0@, p.1)))
                    == insert_all(Map::<Seq<Seq<char>>, T>::empty(), entries0),
                goal_len == if trie.spec_len() + new_keys(
                    trie.contents(),
                    data@.map_values(|p: (String, T)| (p.0@, p.1)),
                ) <= usize::MAX {
                    trie.spec_len() + new_keys(
                        trie.contents(),
                        data@.map_values(|p: (String, T)| (p.0@, p.1)),
                    )
                } else {
                    usize::MAX as int
                },
            decreases data@.len(),
        {
            let ghost predata = data@;
            let ghost pre = data@.map_values(|p: (String, T)| (p.0@, p.1));
            let pair = data.remove(0);
            trie.insert(&pair.0, pair.1);
            proof {
                assert(data@ =~= predata.drop_first());
                assert(data@.map_values(|p: (String, T)| (p.0@, p.1)) =~= pre.drop_first());
                assert(pre[0] == (pair.0@, pair.1));
            }
        }
        proof {
            assert(data@.map_values(|p: (String, T)| (p.0@, p.1)).len() == 0);
        }
        trie
    }

    /// Stores `data` under `key`, replacing any payload already stored under
    /// it; all other keys keep their payloads. `len` grows by one when the
    /// key is new (it stops at `usize::MAX`), so it counts the stored entries.
    pub fn insert(&mut self, key: &str, data: T)
        ensures
            final(self).contents() == old(self).contents().insert(graphemes_of(key@), data),
            final(self).spec_len() == if old(self).contents().contains_key(graphemes_of(key@)) {
                old(self).spec_len() as int
            } else if old(self).spec_len() < usize::MAX {
                old(self).spec_len() + 1
            } else {
                usize::MAX as int
            },
    {
        let g = graphemes(key);
        let was = insert_path(&mut self.root, &g, 0, data);
        if !was {
            self.len = self.len.saturating_add(1);
        }
        proof {
            assert(g.deep_view().skip(0) =~= graphemes_of(key@));
            assert(was == old(self).contents().contains_key(graphemes_of(key@)));
            assert(self.contents() =~= old(self).contents().insert(graphemes_of(key@), data));
        }
    }
}

/// How many of `entries`, stored in order into a trie whose contents are `m`,
/// create a key that was not there before.
pub open spec fn new_keys<T>(m: Map<Seq<Seq<char>>, T>, entries: Seq<(Seq<char>, T)>) -> nat
    decreases entries.len(),
{
    if entries.len() == 0 {
        0
    } else {
        (if m.contains_key(graphemes_of(entries[0].0)) {
            0nat
        } else {
            1nat
        }) + new_keys(m.insert(graphemes_of(entries[0].0), entries[0].1), entries.drop_first())
    }
}

/// The map after storing each of `entries` in order: a later entry with an
/// equal key wins.
pub open spec fn insert_all<T>(
    m: Map<Seq<Seq<char>>, T>,
    entries: Seq<(Seq<char>, T)>,
) -> Map<Seq<Seq<char>>, T>
    decreases entries.len(),
{
    if entries.len() == 0 {
        m
    } else {
        insert_all(m.insert(graphemes_of(entries[0].0), entries[0].1), entries.drop_first())
    }
}

/// The largest depth `e` with `1 <= e <= d` such that the first `e` grapheme
/// clusters of `q` form a key of `m`; 0 if there is none.
pub open spec fn best_depth<T>(m: Map<Seq<Seq<char>>, T>, q: Seq<Seq<char>>, d: int) -> int
    decreases d,
{
    if d <= 0 {
        0
    } else if d <= q.len() && m.contains_key(q.take(d)) {
        d
    } else {
        best_depth(m, q, d - 1)
    }
}

/// The payload of the longest key of `m` that is a non-empty grapheme prefix
/// of `q`, together with that key's grapheme length.
pub open spec fn longest_match<T>(m: Map<Seq<Seq<char>>, T>, q: Seq<Seq<char>>) -> Option<
    (T, nat),
> {
    let b = best_depth(m, q, q.len() as int);
    if b > 0 {
        Some((m[q.take(b)], b as nat))
    } else {
        None
    }
}

pub proof fn lemma_best_depth_props<T>(m: Map<Seq<Seq<char>>, T>, q: Seq<Seq<char>>, d: int)
    requires
        0 <= d <= q.len(),
    ensures
        0 <= best_depth(m, q, d) <= d,
        best_depth(m, q, d) > 0 ==> m.contains_key(q.take(best_depth(m, q, d))),
        forall|e: int| best_depth(m, q, d) < e <= d ==> !m.contains_key(#[trigger] q.take(e)),
    decreases d,
{
    if d <= 0 {
    } else if m.contains_key(q.take(d)) {
    } else {
        lemma_best_depth_props(m, q, d - 1);
    }
}

/// `best_depth` is the unique depth that is a match (or 0) with no deeper match.
pub proof fn lemma_best_depth_at<T>(m: Map<Seq<Seq<char>>, T>, q: Seq<Seq<char>>, d: int, b: int)
    requires
        0 <= b <= d <= q.len(),
        b > 0 ==> m.contains_key(q.take(b)),
        forall|e: int| b < e <= d ==> !m.contains_key(#[trigger] q.take(e)),
    ensures
        best_depth(m, q, d) == b,
    decreases d,
{
    if d == b {
    } else {
        assert(!m.contains_key(q.take(d)));
        lemma_best_depth_at(m, q, d - 1, b);
    }
}

/// Taking `e` elements and dropping the first is the same as dropping the
/// first and taking `e - 1`.
proof fn lemma_take_drop_first<A>(q: Seq<A>, e: int)
    requires
        1 <= e <= q.len(),
    ensures
        q.take(e).drop_first() =~= q.drop_first().take(e - 1),
{
}

/// The longest-match walk of a node agrees with the longest key of its path
/// contents that is a non-empty grapheme prefix of the query.
proof fn lemma_search_path_longest<T>(n: TrieNode<T>, q: Seq<Seq<char>>)
    ensures
        n.search_path(q) == longest_match(n.path_contents(), q),
    decreases q.len(),
{
    let m = n.path_contents();
    if q.len() == 0 {
        assert(best_depth(m, q, 0) == 0);
    } else {
        match n.child(q[0]) {
            None => {
                assert forall|e: int| 0 < e <= q.len() implies !m.contains_key(
                    #[trigger] q.take(e),
                ) by {
                    assert(q.take(e)[0] == q[0]);
                    assert(n.get_path(q.take(e)) is None);
                }
                lemma_best_depth_at(m, q, q.len() as int, 0);
            },
            Some(c) => {
                let mc = c.path_contents();
                let qd = q.drop_first();
                lemma_search_path_longest(c, qd);
                // bridge: keys of m along q at depth e are keys of mc along qd at e - 1
                assert forall|e: int| 1 <= e <= q.len() implies {
                    &&& (m.contains_key(#[trigger] q.take(e)) <==> (if e == 1 {
                        c.data is Some
                    } else {
                        mc.contains_key(qd.take(e - 1))
                    }))
                    &&& (m.contains_key(q.take(e)) ==> m[q.take(e)] == (if e == 1 {
                        c.data->0
                    } else {
                        mc[qd.take(e - 1)]
                    }))
                } by {
                    assert(q.take(e)[0] == q[0]);
                    lemma_take_drop_first(q, e);
                    assert(n.get_path(q.take(e)) == c.get_path(qd.take(e - 1)));
                    if e == 1 {
                        assert(qd.take(0) =~= Seq::<Seq<char>>::empty());
                        assert(c.get_path(qd.take(0)) == c.data);
                    }
                }
                lemma_best_depth_props(mc, qd, qd.len() as int);
                match c.search_path(qd) {
                    Some(vd) => {
                        let dd = best_depth(mc, qd, qd.len() as int);
                        assert(dd == vd.1);
                        assert(dd >= 1);
                        assert(m.contains_key(q.take(dd + 1)));
                        assert forall|e: int| dd + 1 < e <= q.len() implies !m.contains_key(
                            #[trigger] q.take(e),
                        ) by {
                            assert(!mc.contains_key(qd.take(e - 1)));
                        }
                        lemma_best_depth_at(m, q, q.len() as int, dd + 1);
                        assert(m[q.take(dd + 1)] == mc[qd.take(dd)]);
                    },
                    None => {
                        assert(best_depth(mc, qd, qd.len() as int) == 0);
                        match c.data {
                            Some(v) => {
                                assert(m.contains_key(q.take(1)));
                                assert forall|e: int| 1 < e <= q.len() implies !m.contains_key(
                                    #[trigger] q.take(e),
                                ) by {
                                    assert(!mc.contains_key(qd.take(e - 1)));
                                }
                                lemma_best_depth_at(m, q, q.len() as int, 1);
                                assert(m[q.take(1)] == v);
                            },
                            None => {
                                assert forall|e: int| 0 < e <= q.len() implies !m.contains_key(
                                    #[trigger] q.take(e),
                                ) by {
                                    if e > 1 {
                                        assert(!mc.contains_key(qd.take(e - 1)));
                                    }
                                }
                                lemma_best_depth_at(m, q, q.len() as int, 0);
                            },
                        }
                    },
                }
            },
        }
    }
}

/// The payload and depth reported by a lookup, as mathematical values.
pub open spec fn match_view<T>(r: Option<TrieResult<&T>>) -> Option<(T, nat)> {
    match r {
        Some(t) => Some((*t.value, t.depth as nat)),
        None => None,
    }
}

/// Longest match wins: with key `a` a strict grapheme prefix of key `b` and
/// exactly the two of them stored, a query that starts with `b` yields `b`'s
/// payload at `b`'s grapheme length, and a query that starts with `a` but not
/// with `b` yields `a`'s payload at `a`'s grapheme length.
pub proof fn lemma_longest_match_prefix<T>(
    a: Seq<Seq<char>>,
    va: T,
    b: Seq<Seq<char>>,
    vb: T,
    q: Seq<Seq<char>>,
)
    requires
        0 < a.len() < b.len(),
        a == b.take(a.len() as int),
    ensures
        b.len() <= q.len() && b == q.take(b.len() as int) ==> longest_match(
            Map::<Seq<Seq<char>>, T>::empty().insert(a, va).insert(b, vb),
            q,
        ) == Some((vb, b.len())),
        a.len() <= q.len() && a == q.take(a.len() as int) && !(b.len() <= q.len() && b == q.take(
            b.len() as int,
        )) ==> longest_match(Map::<Seq<Seq<char>>, T>::empty().insert(a, va).insert(b, vb), q)
            == Some((va, a.len())),
{
    let m = Map::<Seq<Seq<char>>, T>::empty().insert(a, va).insert(b, vb);
    assert(forall|k: Seq<Seq<char>>| #[trigger] m.contains_key(k) <==> (k == a || k == b));
    if b.len() <= q.len() && b == q.take(b.len() as int) {
        assert(m.contains_key(q.take(b.len() as int)));
        assert forall|e: int| b.len() < e <= q.len() implies !m.contains_key(
            #[trigger] q.take(e),
        ) by {
            assert(q.take(e).len() == e);
        }
        lemma_best_depth_at(m, q, q.len() as int, b.len() as int);
        assert(m[q.take(b.len() as int)] == vb);
    }
    if a.len() <= q.len() && a == q.take(a.len() as int) && !(b.len() <= q.len() && b == q.take(
        b.len() as int,
    )) {
        assert(m.contains_key(q.take(a.len() as int)));
        assert forall|e: int| a.len() < e <= q.len() implies !m.contains_key(
            #[trigger] q.take(e),
        ) by {
            assert(q.take(e).len() == e);
        }
        lemma_best_depth_at(m, q, q.len() as int, a.len() as int);
        assert(m[q.take(a.len() as int)] == va);
    }
}

/// A query whose first grapheme cluster starts no stored key yields nothing;
/// in particular one sharing no grapheme cluster with any stored key does.
pub proof fn lemma_no_shared_grapheme<T>(m: Map<Seq<Seq<char>>, T>, q: Seq<Seq<char>>)
    requires
        forall|k: Seq<Seq<char>>| #[trigger] m.contains_key(k) ==> k.len() == 0 || q.len() == 0
            || k[0] != q[0],
    ensures
        longest_match(m, q) is None,
{
    assert forall|e: int| 0 < e <= q.len() implies !m.contains_key(#[trigger] q.take(e)) by {
        assert(q.take(e).len() == e);
        if m.contains_key(q.take(e)) {
            assert(q.take(e)[0] == q[0]);
        }
    }
    lemma_best_depth_at(m, q, q.len() as int, 0);
}

/// Lookups are pure: two lookups of one query against one unchanged contents
/// map give identical results.
pub proof fn lemma_get_idempotent<T>(
    m: Map<Seq<Seq<char>>, T>,
    q: Seq<Seq<char>>,
    r1: Option<(T, nat)>,
    r2: Option<(T, nat)>,
)
    requires
        r1 == longest_match(m, q),
        r2 == longest_match(m, q),
    ensures
        r1 == r2,
{
}

} // verus!
