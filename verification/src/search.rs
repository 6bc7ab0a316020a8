use vstd::prelude::*;
use vstd::map::*;
use crate::trie::Trie;
use crate::trie::find_key;
use crate::trie::find_child_index;
use crate::trie::lemma_find_key_props;
use crate::trie::insert_all;
use crate::trie::longest_match;
use crate::util::graphemes_of;
use crate::util::rev_concat_chars;
use crate::util::unicode_reverse;

verus! {

/// The template ids sharing one trie key.
pub struct TemplateTrieData {
    pub matches: Vec<usize>,
}

/// The retrieval hints of one template: optional lists of prefix, suffix and
/// tag strings.
pub struct TemplateMetadata {
    prefixes: Option<Vec<String>>,
    suffixes: Option<Vec<String>>,
    tags: Option<Vec<String>>,
}

impl TemplateMetadata {
    pub closed spec fn spec_prefixes(self) -> Option<Seq<Seq<char>>> {
        self.prefixes.deep_view()
    }

    pub closed spec fn spec_suffixes(self) -> Option<Seq<Seq<char>>> {
        self.suffixes.deep_view()
    }

    pub closed spec fn spec_tags(self) -> Option<Seq<Seq<char>>> {
        self.tags.deep_view()
    }

    pub fn new(
        prefixes: Option<Vec<String>>,
        suffixes: Option<Vec<String>>,
        tags: Option<Vec<String>>,
    ) -> (r: Self)
        ensures
            r.spec_prefixes() == prefixes.deep_view(),
            r.spec_suffixes() == suffixes.deep_view(),
            r.spec_tags() == tags.deep_view(),
    {
        TemplateMetadata { prefixes, suffixes, tags }
    }
}

fn clone_string_vec(v: &Vec<String>) -> (r: Vec<String>)
    ensures
        r@ =~= v@,
{
    let mut r: Vec<String> = Vec::new();
    let mut i: usize = 0;
    while i < v.len()
        invariant
            i <= v@.len(),
            r@ =~= v@.take(i as int),
        decreases v@.len() - i,
    {
        r.push(v[i].clone());
        i = i + 1;
        proof {
            assert(r@ =~= v@.take(i as int));
        }
    }
    proof {
        assert(v@.take(v@.len() as int) =~= v@);
    }
    r
}

fn clone_opt_string_vec(v: &Option<Vec<String>>) -> (r: Option<Vec<String>>)
    ensures
        r.deep_view() == v.deep_view(),
{
    match v {
        Some(inner) => {
            let c = clone_string_vec(inner);
            proof {
                assert(c.deep_view() =~= inner.deep_view());
            }
            Some(c)
        },
        None => None,
    }
}

impl Clone for TemplateMetadata {
    fn clone(&self) -> (r: Self)
        ensures
            r.spec_prefixes() == self.spec_prefixes(),
            r.spec_suffixes() == self.spec_suffixes(),
            r.spec_tags() == self.spec_tags(),
    {
        TemplateMetadata {
            prefixes: clone_opt_string_vec(&self.prefixes),
            suffixes: clone_opt_string_vec(&self.suffixes),
            tags: clone_opt_string_vec(&self.tags),
        }
    }
}

/// Position of the first entry with key `k`, or -1 if there is none.
pub open spec fn find_skey(es: Seq<(Seq<char>, Seq<usize>)>, k: Seq<char>) -> int
    decreases es.len(),
{
    if es.len() == 0 {
        -1
    } else if es[0].0 == k {
        0
    } else {
        let r = find_skey(es.drop_first(), k);
        if r < 0 {
            -1
        } else {
            r + 1
        }
    }
}

/// One key occurrence of template `id`: appends `id` to the key's id list,
/// creating the entry at the end if the key is new.
pub open spec fn add_occ(
    es: Seq<(Seq<char>, Seq<usize>)>,
    k: Seq<char>,
    id: usize,
) -> Seq<(Seq<char>, Seq<usize>)> {
    let f = find_skey(es, k);
    if f >= 0 {
        es.update(f, (k, es[f].1.push(id)))
    } else {
        es.push((k, seq![id]))
    }
}

/// All key occurrences of template `id`, in list order.
pub open spec fn add_list(
    es: Seq<(Seq<char>, Seq<usize>)>,
    keys: Seq<Seq<char>>,
    id: usize,
) -> Seq<(Seq<char>, Seq<usize>)>
    decreases keys.len(),
{
    if keys.len() == 0 {
        es
    } else {
        add_list(add_occ(es, keys[0], id), keys.drop_first(), id)
    }
}

/// The association list built from the key lists of templates `0 .. n`, each
/// key with the ids of the templates listing it, in first-seen key order.
pub open spec fn build_entries(lists: Seq<Option<Seq<Seq<char>>>>, n: int) -> Seq<
    (Seq<char>, Seq<usize>),
>
    decreases n,
{
    if n <= 0 {
        Seq::empty()
    } else {
        match lists[n - 1] {
            Some(keys) => add_list(build_entries(lists, n - 1), keys, (n - 1) as usize),
            None => build_entries(lists, n - 1),
        }
    }
}

pub open spec fn signal_entries(lists: Seq<Option<Seq<Seq<char>>>>) -> Seq<
    (Seq<char>, Seq<usize>),
> {
    build_entries(lists, lists.len() as int)
}

/// Each entry key replaced by the key with its grapheme clusters reversed.
pub open spec fn rev_entries(es: Seq<(Seq<char>, Seq<usize>)>) -> Seq<(Seq<char>, Seq<usize>)> {
    es.map_values(|p: (Seq<char>, Seq<usize>)| (rev_concat_chars(graphemes_of(p.0)), p.1))
}

/// The map from stored grapheme paths to id lists alone.
pub open spec fn ids_view(m: Map<Seq<Seq<char>>, TemplateTrieData>) -> Map<
    Seq<Seq<char>>,
    Seq<usize>,
> {
    Map::new(|k: Seq<Seq<char>>| m.contains_key(k), |k: Seq<Seq<char>>| m[k].matches@)
}

/// The map after storing each of `entries` in order under the grapheme
/// clusters of its key; a later entry with an equal key wins.
pub open spec fn insert_all_ids(
    m: Map<Seq<Seq<char>>, Seq<usize>>,
    entries: Seq<(Seq<char>, Seq<usize>)>,
) -> Map<Seq<Seq<char>>, Seq<usize>>
    decreases entries.len(),
{
    if entries.len() == 0 {
        m
    } else {
        insert_all_ids(m.insert(graphemes_of(entries[0].0), entries[0].1), entries.drop_first())
    }
}

/// The view of an association list under construction.
pub open spec fn entries_view(es: Seq<(String, TemplateTrieData)>) -> Seq<
    (Seq<char>, Seq<usize>),
> {
    es.map_values(|p: (String, TemplateTrieData)| (p.0@, p.1.matches@))
}

proof fn lemma_find_skey_view(es: Seq<(String, TemplateTrieData)>, k: Seq<char>)
    ensures
        find_skey(entries_view(es), k) == find_key(es, k),
    decreases es.len(),
{
    if es.len() == 0 {
    } else {
        assert(entries_view(es)[0] == (es[0].0@, es[0].1.matches@));
        if es[0].0@ == k {
        } else {
            lemma_find_skey_view(es.drop_first(), k);
            assert(entries_view(es).drop_first() =~= entries_view(es.drop_first()));
        }
    }
}

/// `ids_view` of the trie contents after inserting entries equals the
/// id-level fold over the entry views.
proof fn lemma_insert_all_ids_view(
    m: Map<Seq<Seq<char>>, TemplateTrieData>,
    es: Seq<(Seq<char>, TemplateTrieData)>,
)
    ensures
        ids_view(insert_all(m, es)) == insert_all_ids(
            ids_view(m),
            es.map_values(|p: (Seq<char>, TemplateTrieData)| (p.0, p.1.matches@)),
        ),
    decreases es.len(),
{
    let g = |p: (Seq<char>, TemplateTrieData)| (p.0, p.1.matches@);
    if es.len() == 0 {
        assert(es.map_values(g).len() == 0);
    } else {
        let m2 = m.insert(graphemes_of(es[0].0), es[0].1);
        lemma_insert_all_ids_view(m2, es.drop_first());
        assert(es.map_values(g).drop_first() =~= es.drop_first().map_values(g));
        assert(es.map_values(g)[0] == g(es[0]));
        assert(ids_view(m2) =~= ids_view(m).insert(graphemes_of(es[0].0), es[0].1.matches@));
    }
}

/// Appends `id` to the entry of `key`, creating the entry at the end if the
/// key is new.
fn add_occurrence(entries: &mut Vec<(String, TemplateTrieData)>, key: &String, id: usize)
    ensures
        entries_view(final(entries)@) == add_occ(entries_view(old(entries)@), key@, id),
{
    let ghost es0 = entries@;
    proof {
        lemma_find_skey_view(es0, key@);
    }
    match find_child_index(entries, key) {
        Some(f) => {
            let mut pair = entries.remove(f);
            pair.1.matches.push(id);
            let ghost pair_snap = pair;
            entries.insert(f, pair);
            proof {
                assert(entries@ =~= es0.update(f as int, pair_snap));
                lemma_find_key_props(es0, key@);
                assert(entries_view(entries@) =~= add_occ(entries_view(es0), key@, id)) by {
                    assert(entries_view(es0)[f as int] == (es0[f as int].0@, es0[f as int].1.matches@));
                    assert(pair_snap.0@ == key@);
                    assert(es0[f as int].0@ == key@);
                    assert(pair_snap.1.matches@ == es0[f as int].1.matches@.push(id));
                }
            }
        },
        None => {
            let mut matches: Vec<usize> = Vec::new();
            matches.push(id);
            let kc = key.clone();
            let ghost p = (kc, TemplateTrieData { matches });
            entries.push((kc, TemplateTrieData { matches }));
            proof {
                assert(entries@ =~= es0.push(p));
                assert(p.1.matches@ =~= seq![id]);
                assert(entries_view(entries@) =~= add_occ(entries_view(es0), key@, id));
            }
        },
    }
}

/// Appends `id` under every key of `keys`, in order.
fn add_keys(entries: &mut Vec<(String, TemplateTrieData)>, keys: &Vec<String>, id: usize)
    ensures
        entries_view(final(entries)@) == add_list(entries_view(old(entries)@), keys.deep_view(), id),
{
    let ghost kv = keys.deep_view();
    let ghost goal = add_list(entries_view(old(entries)@), kv, id);
    let mut j: usize = 0;
    proof {
        assert(kv.skip(0) =~= kv);
    }
    while j < keys.len()
        invariant
            j <= kv.len(),
            kv == keys.deep_view(),
            goal == add_list(entries_view(entries@), kv.skip(j as int), id),
        decreases kv.len() - j,
    {
        proof {
            assert(kv.skip(j as int)[0] == keys@[j as int]@);
            assert(kv.skip(j as int).drop_first() =~= kv.skip(j as int + 1));
        }
        add_occurrence(entries, &keys[j], id);
        j = j + 1;
    }
    proof {
        assert(kv.skip(j as int).len() == 0);
    }
}

/// A collection of templates indexed for retrieval: one trie per signal kind,
/// mapping prefix strings, grapheme-reversed suffix strings and tag strings
/// to the ids of the templates listing them.
pub struct TemplateEngine {
    prefixes: Trie<TemplateTrieData>,
    suffixes: Trie<TemplateTrieData>,
    tags: Trie<TemplateTrieData>,
}

/// The prefix key lists of the templates, in id order.
pub open spec fn prefix_lists(metas: Seq<TemplateMetadata>) -> Seq<Option<Seq<Seq<char>>>> {
    metas.map_values(|m: TemplateMetadata| m.spec_prefixes())
}

pub open spec fn suffix_lists(metas: Seq<TemplateMetadata>) -> Seq<Option<Seq<Seq<char>>>> {
    metas.map_values(|m: TemplateMetadata| m.spec_suffixes())
}

pub open spec fn tag_lists(metas: Seq<TemplateMetadata>) -> Seq<Option<Seq<Seq<char>>>> {
    metas.map_values(|m: TemplateMetadata| m.spec_tags())
}

impl TemplateEngine {
    pub closed spec fn prefix_contents(self) -> Map<Seq<Seq<char>>, TemplateTrieData> {
        self.prefixes.contents()
    }

    pub closed spec fn suffix_contents(self) -> Map<Seq<Seq<char>>, TemplateTrieData> {
        self.suffixes.contents()
    }

    pub closed spec fn tag_contents(self) -> Map<Seq<Seq<char>>, TemplateTrieData> {
        self.tags.contents()
    }

    pub fn new() -> (r: Self)
        ensures
            r.prefix_contents() == Map::<Seq<Seq<char>>, TemplateTrieData>::empty(),
            r.suffix_contents() == Map::<Seq<Seq<char>>, TemplateTrieData>::empty(),
            r.tag_contents() == Map::<Seq<Seq<char>>, TemplateTrieData>::empty(),
    {
        Self { prefixes: Trie::new(), suffixes: Trie::new(), tags: Trie::new() }
    }

    /// Builds the three signal tries from the templates' metadata, in id
    /// order: each signal key maps to the ids of the templates listing it,
    /// merged before insertion; suffix keys are stored with their grapheme
    /// clusters reversed, so a reversed query can be looked up as a prefix.
    pub fn from_templates(templates: Vec<TemplateMetadata>) -> (r: Self)
        ensures
            ids_view(r.prefix_contents()) == insert_all_ids(
                Map::<Seq<Seq<char>>, Seq<usize>>::empty(),
                signal_entries(prefix_lists(templates@)),
            ),
            ids_view(r.suffix_contents()) == insert_all_ids(
                Map::<Seq<Seq<char>>, Seq<usize>>::empty(),
                rev_entries(signal_entries(suffix_lists(templates@))),
            ),
            ids_view(r.tag_contents()) == insert_all_ids(
                Map::<Seq<Seq<char>>, Seq<usize>>::empty(),
                signal_entries(tag_lists(templates@)),
            ),
    {
        let ghost pl = prefix_lists(templates@);
        let ghost sl = suffix_lists(templates@);
        let ghost tl = tag_lists(templates@);
        let mut pv: Vec<(String, TemplateTrieData)> = Vec::new();
        let mut sv: Vec<(String, TemplateTrieData)> = Vec::new();
        let mut tv: Vec<(String, TemplateTrieData)> = Vec::new();
        let mut i: usize = 0;
        while i < templates.len()
            invariant
                i <= templates@.len(),
                pl == prefix_lists(templates@),
                sl == suffix_lists(templates@),
                tl == tag_lists(templates@),
                entries_view(pv@) == build_entries(pl, i as int),
                entries_view(sv@) == build_entries(sl, i as int),
                entries_view(tv@) == build_entries(tl, i as int),
            decreases templates@.len() - i,
        {
            let t = &templates[i];
            proof {
                assert(pl[i as int] == t.spec_prefixes());
                assert(sl[i as int] == t.spec_suffixes());
                assert(tl[i as int] == t.spec_tags());
            }
            match &t.prefixes {
                Some(keys) => {
                    proof {
                        assert(t.spec_prefixes() == Some(keys.deep_view()));
                    }
                    add_keys(&mut pv, keys, i);
                },
                None => {
                    proof {
                        assert(t.spec_prefixes() is None);
                    }
                },
            }
            match &t.suffixes {
                Some(keys) => {
                    proof {
                        assert(t.spec_suffixes() == Some(keys.deep_view()));
                    }
                    add_keys(&mut sv, keys, i);
                },
                None => {
                    proof {
                        assert(t.spec_suffixes() is None);
                    }
                },
            }
            match &t.tags {
                Some(keys) => {
                    proof {
                        assert(t.spec_tags() == Some(keys.deep_view()));
                    }
                    add_keys(&mut tv, keys, i);
                },
                None => {
                    proof {
                        assert(t.spec_tags() is None);
                    }
                },
            }
            i = i + 1;
        }
        let ghost pev = entries_view(pv@);
        let ghost sev = entries_view(sv@);
        let ghost tev = entries_view(tv@);
        // reverse the grapheme order of each suffix key
        let mut rv: Vec<(String, TemplateTrieData)> = Vec::new();
        while sv.len() > 0
            invariant
                entries_view(rv@) + rev_entries(entries_view(sv@)) =~= rev_entries(sev),
            decreases sv@.len(),
        {
            let ghost pre = sv@;
            let pair = sv.remove(0);
            let rk = unicode_reverse(pair.0.as_str());
            let ghost rp = (rk, pair.1);
            rv.push((rk, pair.1));
            proof {
                assert(sv@ =~= pre.drop_first());
                assert(entries_view(sv@) =~= entries_view(pre).drop_first());
                assert(rev_entries(entries_view(pre))[0] == (
                    rev_concat_chars(graphemes_of(pre[0].0@)),
                    pre[0].1.matches@,
                ));
                assert(rev_entries(entries_view(pre)).drop_first() =~= rev_entries(
                    entries_view(sv@),
                ));
                assert(entries_view(rv@) =~= entries_view(rv@.drop_last()).push(
                    (rp.0@, rp.1.matches@),
                ));
                assert(entries_view(rv@.drop_last()) + rev_entries(entries_view(pre))
                    =~= rev_entries(sev));
                assert(entries_view(rv@) + rev_entries(entries_view(sv@)) =~= rev_entries(sev));
            }
        }
        proof {
            assert(rev_entries(entries_view(sv@)).len() == 0);
            assert(entries_view(rv@) + rev_entries(entries_view(sv@)) =~= entries_view(rv@));
        }
        let ghost pes = pv@.map_values(|p: (String, TemplateTrieData)| (p.0@, p.1));
        let ghost res = rv@.map_values(|p: (String, TemplateTrieData)| (p.0@, p.1));
        let ghost tes = tv@.map_values(|p: (String, TemplateTrieData)| (p.0@, p.1));
        let ghost rev = entries_view(rv@);
        let prefixes = Trie::from_vec(pv);
        let suffixes = Trie::from_vec(rv);
        let tags = Trie::from_vec(tv);
        let r = Self { prefixes, suffixes, tags };
        proof {
            let g = |p: (Seq<char>, TemplateTrieData)| (p.0, p.1.matches@);
            lemma_from_vec_ids(r.prefixes.contents(), pes);
            lemma_from_vec_ids(r.suffixes.contents(), res);
            lemma_from_vec_ids(r.tags.contents(), tes);
            assert(pes.map_values(g) =~= pev);
            assert(res.map_values(g) =~= rev);
            assert(tes.map_values(g) =~= tev);
            assert(rev =~= rev_entries(sev));
        }
        r
    }
}

/// Bridges `from_vec`'s contract to the id-level fold over the entry views.
proof fn lemma_from_vec_ids(
    m: Map<Seq<Seq<char>>, TemplateTrieData>,
    es: Seq<(Seq<char>, TemplateTrieData)>,
)
    requires
        m == insert_all(Map::<Seq<Seq<char>>, TemplateTrieData>::empty(), es),
    ensures
        ids_view(m) == insert_all_ids(
            Map::<Seq<Seq<char>>, Seq<usize>>::empty(),
            es.map_values(|p: (Seq<char>, TemplateTrieData)| (p.0, p.1.matches@)),
        ),
{
    lemma_insert_all_ids_view(Map::<Seq<Seq<char>>, TemplateTrieData>::empty(), es);
    assert(ids_view(Map::<Seq<Seq<char>>, TemplateTrieData>::empty()) =~= Map::<
        Seq<Seq<char>>,
        Seq<usize>,
    >::empty());
}

/// A score fold state: the per-id scores, the incumbent best id, and the best
/// score reached so far.
pub type SearchState = (Map<usize, u32>, Option<usize>, u32);

pub open spec fn init_state() -> SearchState {
    (Map::<usize, u32>::empty(), None::<usize>, 0u32)
}

pub open spec fn score_of(st: SearchState, id: usize) -> u32 {
    if st.0.contains_key(id) {
        st.0[id]
    } else {
        0u32
    }
}

/// Addition on scores, stopping at the largest score.
pub open spec fn sat_add(a: u32, b: u32) -> u32 {
    if a + b <= u32::MAX {
        (a + b) as u32
    } else {
        u32::MAX
    }
}

/// A match depth as a score, stopping at the largest score.
pub open spec fn sat_cast(d: nat) -> u32 {
    if d <= u32::MAX {
        d as u32
    } else {
        u32::MAX
    }
}

/// Scores one matched id list: each listed id's score grows by the match
/// depth, in list order, and an id whose new score strictly exceeds the best
/// seen so far becomes the incumbent; an equal score does not displace it.
pub open spec fn apply_ids(st: SearchState, ids: Seq<usize>, d: u32) -> SearchState
    decreases ids.len(),
{
    if ids.len() == 0 {
        st
    } else {
        let id = ids[0];
        let ns = sat_add(score_of(st, id), d);
        let st2 = (
            st.0.insert(id, ns),
            if ns > st.2 {
                Some(id)
            } else {
                st.1
            },
            if ns > st.2 {
                ns
            } else {
                st.2
            },
        );
        apply_ids(st2, ids.drop_first(), d)
    }
}

pub open spec fn apply_match(st: SearchState, m: Option<(TemplateTrieData, nat)>) -> SearchState {
    match m {
        Some(vd) => apply_ids(st, vd.0.matches@, sat_cast(vd.1)),
        None => st,
    }
}

/// Scores the longest match of each tag, in tag order.
pub open spec fn apply_tag_matches(
    st: SearchState,
    tm: Map<Seq<Seq<char>>, TemplateTrieData>,
    ts: Seq<Seq<char>>,
) -> SearchState
    decreases ts.len(),
{
    if ts.len() == 0 {
        st
    } else {
        apply_tag_matches(apply_match(st, longest_match(tm, graphemes_of(ts[0]))), tm, ts.drop_first())
    }
}

/// The id a search returns: the longest prefix-trie match of the term, the
/// longest suffix-trie match of the grapheme-reversed term, and the longest
/// tag-trie match of each tag are scored in that order, and the first id to
/// reach the running maximum wins; `None` when no signal matched.
pub open spec fn spec_search(
    pm: Map<Seq<Seq<char>>, TemplateTrieData>,
    sm: Map<Seq<Seq<char>>, TemplateTrieData>,
    tm: Map<Seq<Seq<char>>, TemplateTrieData>,
    term: Seq<char>,
    tags: Option<Seq<Seq<char>>>,
) -> Option<usize> {
    let st1 = apply_match(init_state(), longest_match(pm, graphemes_of(term)));
    let st2 = apply_match(
        st1,
        longest_match(sm, graphemes_of(rev_concat_chars(graphemes_of(term)))),
    );
    let st3 = match tags {
        Some(ts) => apply_tag_matches(st2, tm, ts),
        None => st2,
    };
    st3.1
}

/// Position of the first score entry of `id`, or -1 if there is none.
pub open spec fn find_id(s: Seq<(usize, u32)>, id: usize) -> int
    decreases s.len(),
{
    if s.len() == 0 {
        -1
    } else if s[0].0 == id {
        0
    } else {
        let r = find_id(s.drop_first(), id);
        if r < 0 {
            -1
        } else {
            r + 1
        }
    }
}

proof fn lemma_find_id_props(s: Seq<(usize, u32)>, id: usize)
    ensures
        find_id(s, id) == -1 ==> forall|i: int| 0 <= i < s.len() ==> s[i].0 != id,
        find_id(s, id) != -1 ==> {
            let r = find_id(s, id);
            &&& 0 <= r < s.len()
            &&& s[r].0 == id
            &&& forall|j: int| 0 <= j < r ==> s[j].0 != id
        },
    decreases s.len(),
{
    if s.len() == 0 {
    } else if s[0].0 == id {
    } else {
        lemma_find_id_props(s.drop_first(), id);
        let r = find_id(s.drop_first(), id);
        if r == -1 {
            assert(forall|i: int| 1 <= i < s.len() ==> s[i] == s.drop_first()[i - 1]);
        } else {
            assert(s.drop_first()[r] == s[r + 1]);
            assert(forall|j: int| 1 <= j < r + 1 ==> s[j] == s.drop_first()[j - 1]);
        }
    }
}

proof fn lemma_find_id_update(s: Seq<(usize, u32)>, j: int, p: (usize, u32), id: usize)
    requires
        0 <= j < s.len(),
        p.0 == s[j].0,
    ensures
        find_id(s.update(j, p), id) == find_id(s, id),
    decreases s.len(),
{
    if s.len() == 0 {
    } else if j == 0 {
        assert(s.update(j, p)[0] == p);
        if s[0].0 != id {
            assert(s.update(j, p).drop_first() =~= s.drop_first());
        }
    } else {
        assert(s.update(j, p)[0] == s[0]);
        if s[0].0 != id {
            assert(s.update(j, p).drop_first() =~= s.drop_first().update(j - 1, p));
            lemma_find_id_update(s.drop_first(), j - 1, p, id);
        }
    }
}

proof fn lemma_find_id_push(s: Seq<(usize, u32)>, p: (usize, u32), id: usize)
    ensures
        find_id(s.push(p), id) == if find_id(s, id) >= 0 {
            find_id(s, id)
        } else if p.0 == id {
            s.len() as int
        } else {
            -1
        },
    decreases s.len(),
{
    if s.len() == 0 {
        assert(s.push(p)[0] == p);
        assert(s.push(p).drop_first() =~= Seq::<(usize, u32)>::empty());
        assert(find_id(Seq::<(usize, u32)>::empty(), id) == -1);
    } else {
        assert(s.push(p)[0] == s[0]);
        if s[0].0 != id {
            assert(s.push(p).drop_first() =~= s.drop_first().push(p));
            lemma_find_id_push(s.drop_first(), p, id);
        }
    }
}

/// The per-id scores an association vector holds.
pub open spec fn scores_view(s: Seq<(usize, u32)>) -> Map<usize, u32> {
    Map::new(|id: usize| find_id(s, id) >= 0, |id: usize| s[find_id(s, id)].1)
}

fn find_id_index(s: &Vec<(usize, u32)>, id: usize) -> (r: Option<usize>)
    ensures
        match r {
            Some(i) => i < s@.len() && find_id(s@, id) == i as int,
            None => find_id(s@, id) == -1,
        },
{
    let mut i: usize = 0;
    while i < s.len()
        invariant
            i <= s@.len(),
            forall|j: int| 0 <= j < i ==> s@[j].0 != id,
        decreases s@.len() - i,
    {
        if s[i].0 == id {
            proof {
                lemma_find_id_props(s@, id);
            }
            return Some(i);
        }
        i = i + 1;
    }
    proof {
        lemma_find_id_props(s@, id);
    }
    None
}

/// Scores one matched id list, as `apply_ids` describes.
fn add_scores(
    scores: &mut Vec<(usize, u32)>,
    best: &mut Option<usize>,
    best_score: &mut u32,
    ids: &Vec<usize>,
    d: u32,
)
    ensures
        (scores_view(final(scores)@), *final(best), *final(best_score)) == apply_ids(
            (scores_view(old(scores)@), *old(best), *old(best_score)),
            ids@,
            d,
        ),
{
    let ghost goal = apply_ids((scores_view(old(scores)@), *old(best), *old(best_score)), ids@, d);
    let mut i: usize = 0;
    proof {
        assert(ids@.skip(0) =~= ids@);
    }
    while i < ids.len()
        invariant
            i <= ids@.len(),
            goal == apply_ids((scores_view(scores@), *best, *best_score), ids@.skip(i as int), d),
        decreases ids@.len() - i,
    {
        proof {
            assert(ids@.skip(i as int)[0] == ids@[i as int]);
            assert(ids@.skip(i as int).drop_first() =~= ids@.skip(i as int + 1));
        }
        let id = ids[i];
        let ghost s0 = scores@;
        let ghost st0 = (scores_view(s0), *best, *best_score);
        let ns: u32;
        match find_id_index(scores, id) {
            Some(f) => {
                let mut pair = scores.remove(f);
                pair.1 = pair.1.saturating_add(d);
                ns = pair.1;
                let ghost p = pair;
                scores.insert(f, pair);
                proof {
                    lemma_find_id_props(s0, id);
                    assert(scores@ =~= s0.update(f as int, p));
                    assert(scores_view(s0).contains_key(id));
                    assert(score_of(st0, id) == s0[f as int].1);
                    assert(ns == sat_add(score_of(st0, id), d));
                    assert_maps_equal!(scores_view(scores@), scores_view(s0).insert(id, ns), key: usize => {
                        lemma_find_id_update(s0, f as int, p, key);
                        lemma_find_id_props(s0, key);
                        if key == id {
                            assert(find_id(s0, key) == f as int);
                            assert(scores@[f as int].1 == ns);
                        } else {
                            if find_id(s0, key) >= 0 {
                                assert(s0[find_id(s0, key)].0 == key);
                                assert(find_id(s0, key) != f as int);
                                assert(scores@[find_id(s0, key)] == s0[find_id(s0, key)]);
                            }
                        }
                    });
                }
            },
            None => {
                ns = d;
                scores.push((id, d));
                proof {
                    lemma_find_id_props(s0, id);
                    assert(!scores_view(s0).contains_key(id));
                    assert(score_of(st0, id) == 0);
                    assert(sat_add(0u32, d) == d);
                    assert(scores@ =~= s0.push((id, d)));
                    assert_maps_equal!(scores_view(scores@), scores_view(s0).insert(id, ns), key: usize => {
                        lemma_find_id_push(s0, (id, d), key);
                        lemma_find_id_props(s0, key);
                        if key == id {
                            assert(find_id(scores@, key) == s0.len() as int);
                            assert(scores@[s0.len() as int].1 == d);
                        } else {
                            if find_id(s0, key) >= 0 {
                                assert(scores@[find_id(s0, key)] == s0[find_id(s0, key)]);
                            }
                        }
                    });
                }
            },
        }
        if ns > *best_score {
            *best_score = ns;
            *best = Some(id);
        }
        i = i + 1;
    }
    proof {
        assert(ids@.skip(i as int).len() == 0);
    }
}

pub open spec fn opt_tags_view(tags: Option<&Vec<&str>>) -> Option<Seq<Seq<char>>> {
    match tags {
        Some(ts) => Some(ts.deep_view()),
        None => None,
    }
}

impl TemplateEngine {
    /// Scores the term against the prefix trie, its grapheme reversal against
    /// the suffix trie, and each given tag against the tag trie, summing the
    /// match depths per template id; the first id to reach the running
    /// maximum wins. `None` when no signal matched anything.
    pub fn search(&self, term: &str, tags: Option<&Vec<&str>>) -> (r: Option<usize>)
        ensures
            r == spec_search(
                self.prefix_contents(),
                self.suffix_contents(),
                self.tag_contents(),
                term@,
                opt_tags_view(tags),
            ),
    {
        let mut scores: Vec<(usize, u32)> = Vec::new();
        let mut best: Option<usize> = None;
        let mut best_score: u32 = 0;
        proof {
            assert(scores_view(scores@) =~= Map::<usize, u32>::empty());
        }
        match self.prefixes.get(term) {
            Some(res) => {
                let d = clamp_u32(res.depth);
                add_scores(&mut scores, &mut best, &mut best_score, &res.value.matches, d);
            },
            None => {},
        }
        let ghost st1 = apply_match(
            init_state(),
            longest_match(self.prefix_contents(), graphemes_of(term@)),
        );
        proof {
            assert((scores_view(scores@), best, best_score) == st1);
        }
        let rev = unicode_reverse(term);
        match self.suffixes.get(rev.as_str()) {
            Some(res) => {
                let d = clamp_u32(res.depth);
                add_scores(&mut scores, &mut best, &mut best_score, &res.value.matches, d);
            },
            None => {},
        }
        let ghost st2 = apply_match(
            st1,
            longest_match(
                self.suffix_contents(),
                graphemes_of(rev_concat_chars(graphemes_of(term@))),
            ),
        );
        proof {
            assert((scores_view(scores@), best, best_score) == st2);
        }
        match tags {
            Some(ts) => {
                let ghost tv = ts.deep_view();
                let mut ti: usize = 0;
                proof {
                    assert(tv.skip(0) =~= tv);
                }
                while ti < ts.len()
                    invariant
                        ti <= tv.len(),
                        tv == ts.deep_view(),
                        apply_tag_matches(
                            (scores_view(scores@), best, best_score),
                            self.tag_contents(),
                            tv.skip(ti as int),
                        ) == apply_tag_matches(st2, self.tag_contents(), tv),
                    decreases tv.len() - ti,
                {
                    proof {
                        assert(tv.skip(ti as int)[0] == ts@[ti as int]@);
                        assert(tv.skip(ti as int).drop_first() =~= tv.skip(ti as int + 1));
                    }
                    match self.tags.get(ts[ti]) {
                        Some(res) => {
                            let d = clamp_u32(res.depth);
                            add_scores(&mut scores, &mut best, &mut best_score, &res.value.matches, d);
                        },
                        None => {},
                    }
                    ti = ti + 1;
                }
                proof {
                    assert(tv.skip(ti as int).len() == 0);
                }
            },
            None => {},
        }
        best
    }
}

fn clamp_u32(d: usize) -> (r: u32)
    ensures
        r == sat_cast(d as nat),
{
    if d > u32::MAX as usize {
        u32::MAX
    } else {
        d as u32
    }
}

/// Search is a pure function of the engine's trie contents and the query:
/// two searches over one unchanged engine with one term and tag list give
/// identical results.
pub proof fn lemma_search_idempotent(
    pm: Map<Seq<Seq<char>>, TemplateTrieData>,
    sm: Map<Seq<Seq<char>>, TemplateTrieData>,
    tm: Map<Seq<Seq<char>>, TemplateTrieData>,
    term: Seq<char>,
    tags: Option<Seq<Seq<char>>>,
    r1: Option<usize>,
    r2: Option<usize>,
)
    requires
        r1 == spec_search(pm, sm, tm, term, tags),
        r2 == spec_search(pm, sm, tm, term, tags),
    ensures
        r1 == r2,
{
}

} // verus!
