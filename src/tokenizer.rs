use std::rc::Rc;

use vstd::prelude::*;

use crate::grammar::Grammar;
use crate::input_text::{string_of, InputText};
use crate::lattice::{best_path, is_full_path, nodes_ok, path_cost, LatticeNode};
use crate::lexicon::{LexiconSet, WordInfo, MAX_DICTIONARIES, MAX_ENTRIES};
use crate::morpheme::{tiles_text, Morpheme};
use crate::plugin::{CharMapPlugin, InputTextPlugin, OovProviderPlugin};

verus! {

/// Why a text could not be tokenized.
#[derive(Debug)]
pub enum TokenizeErr {
    /// No dictionary word starts at this offset of the normalized text and
    /// no out-of-vocabulary provider is configured.
    UncoveredOffset(usize),
    /// No path of candidate nodes leads from the start to the end of text.
    UnreachableEos,
}

/// The node of entry `i` of dictionary `d` starting at `s`.
pub open spec fn lexicon_node(lex: &LexiconSet, d: int, i: int, s: int) -> LatticeNode {
    let e = lex.entry(d, i);
    LatticeNode {
        start: s as usize,
        end: (s + e.surface@.len()) as usize,
        left_id: e.left_id,
        right_id: e.right_id,
        cost: e.cost,
        dictionary_id: Some(d as usize),
        entry: i as usize,
    }
}

/// The one-character node that provider `k` makes at `s`.
pub open spec fn oov_node(p: OovProviderPlugin, k: int, s: int) -> LatticeNode {
    LatticeNode {
        start: s as usize,
        end: (s + 1) as usize,
        left_id: p.left_id,
        right_id: p.right_id,
        cost: p.cost,
        dictionary_id: None,
        entry: k as usize,
    }
}

/// Some dictionary word starts at `s`.
pub open spec fn covered(lex: &LexiconSet, text: Seq<char>, s: int) -> bool {
    exists|d: int, i: int| #[trigger] lex.entry_matches(text, s, d, i)
}

/// A node of the lattice of `text`: a dictionary word found in the text, or
/// an out-of-vocabulary node where no dictionary word starts.
pub open spec fn is_candidate(
    lex: &LexiconSet,
    oovs: Seq<OovProviderPlugin>,
    text: Seq<char>,
    n: LatticeNode,
) -> bool {
    ||| exists|d: int, i: int| #[trigger] lex.entry_matches(text, n.start as int, d, i)
        && n == lexicon_node(lex, d, i, n.start as int)
    ||| {
        &&& (n.start as int) < text.len()
        &&& !covered(lex, text, n.start as int)
        &&& exists|k: int| 0 <= k < oovs.len() && n == oov_node(#[trigger] oovs[k], k, n.start as int)
    }
}

/// A path of candidate nodes from the start to the end of `text`; the empty
/// path for an empty text.
pub open spec fn is_candidate_path(
    lex: &LexiconSet,
    oovs: Seq<OovProviderPlugin>,
    text: Seq<char>,
    q: Seq<LatticeNode>,
) -> bool {
    if q.len() == 0 {
        text.len() == 0
    } else {
        &&& q[0].start == 0
        &&& forall|j: int| 0 <= j < q.len() ==> is_candidate(lex, oovs, text, #[trigger] q[j])
        &&& forall|j: int| 0 < j < q.len() ==> (#[trigger] q[j - 1]).end == q[j].start
        &&& q.last().end == text.len()
    }
}

/// The normalized text: each plugin rewrites the output of the one before.
pub open spec fn normalized(plugins: Seq<CharMapPlugin>, text: Seq<char>) -> Seq<char>
    decreases plugins.len(),
{
    if plugins.len() == 0 {
        text
    } else {
        plugins.last().rewrite_spec(normalized(plugins.drop_last(), text))
    }
}

/// The node that a greedy walk takes at `p`: some dictionary word that
/// starts there, else the first provider's node.
pub open spec fn greedy_step(lex: &LexiconSet, oovs: Seq<OovProviderPlugin>, text: Seq<char>, p: int) -> LatticeNode {
    if covered(lex, text, p) {
        let (d, i) = choose|d: int, i: int| #[trigger] lex.entry_matches(text, p, d, i);
        lexicon_node(lex, d, i, p)
    } else {
        oov_node(oovs[0], 0, p)
    }
}

/// Nodes from `p` to the end of `text`, each taken by `greedy_step`.
pub open spec fn greedy_walk(lex: &LexiconSet, oovs: Seq<OovProviderPlugin>, text: Seq<char>, p: int) -> Seq<
    LatticeNode,
>
    decreases text.len() - p,
{
    if p < 0 || p >= text.len() {
        Seq::empty()
    } else {
        let n = greedy_step(lex, oovs, text, p);
        if n.end <= p {
            Seq::empty()
        } else {
            seq![n] + greedy_walk(lex, oovs, text, n.end as int)
        }
    }
}

proof fn lemma_greedy_walk(g: &Grammar, lex: &LexiconSet, oovs: Seq<OovProviderPlugin>, text: Seq<char>, p: int)
    requires
        lex.wf(g),
        text.len() <= u32::MAX,
        oovs.len() > 0 || forall|s: int| 0 <= s < text.len() ==> covered(lex, text, s),
        0 <= p < text.len(),
    ensures
        ({
            let q = greedy_walk(lex, oovs, text, p);
            &&& q.len() > 0
            &&& q[0].start == p
            &&& forall|j: int| 0 <= j < q.len() ==> is_candidate(lex, oovs, text, #[trigger] q[j])
            &&& forall|j: int| 0 < j < q.len() ==> (#[trigger] q[j - 1]).end == q[j].start
            &&& q.last().end == text.len()
        }),
    decreases text.len() - p,
{
    let n = greedy_step(lex, oovs, text, p);
    if covered(lex, text, p) {
        let (d, i) = choose|d: int, i: int| #[trigger] lex.entry_matches(text, p, d, i);
        assert(lex.lexicons@[d].wf(g, g.pos_list@.len() as int));
        assert(lex.entry(d, i).wf(g, g.pos_list@.len() as int));
        assert(n == lexicon_node(lex, d, i, p));
        assert(is_candidate(lex, oovs, text, n));
    } else {
        assert(oovs.len() > 0);
        assert(n == oov_node(oovs[0], 0, p));
        assert(is_candidate(lex, oovs, text, n));
    }
    assert(p < n.end <= text.len());
    let q = greedy_walk(lex, oovs, text, p);
    if n.end < text.len() {
        lemma_greedy_walk(g, lex, oovs, text, n.end as int);
        let rest = greedy_walk(lex, oovs, text, n.end as int);
        assert(q == seq![n] + rest);
        assert forall|j: int| 0 <= j < q.len() implies is_candidate(lex, oovs, text, #[trigger] q[j]) by {
            if j > 0 {
                assert(q[j] == rest[j - 1]);
            }
        }
        assert forall|j: int| 0 < j < q.len() implies (#[trigger] q[j - 1]).end == q[j].start by {
            if j > 1 {
                assert(q[j - 1] == rest[j - 2]);
                assert(q[j] == rest[j - 1]);
                let jj = j - 1;
                assert(rest[jj - 1].end == rest[jj].start);
            }
        }
    } else {
        assert(greedy_walk(lex, oovs, text, n.end as int) == Seq::<LatticeNode>::empty());
        assert(q =~= seq![n]);
    }
}

/// Where a provider is configured, or a dictionary word starts at every
/// offset, some candidate path covers the whole text.
pub proof fn lemma_candidate_path_exists(
    g: &Grammar,
    lex: &LexiconSet,
    oovs: Seq<OovProviderPlugin>,
    text: Seq<char>,
)
    requires
        lex.wf(g),
        text.len() <= u32::MAX,
        oovs.len() > 0 || forall|s: int| 0 <= s < text.len() ==> covered(lex, text, s),
    ensures
        exists|q: Seq<LatticeNode>| #[trigger] is_candidate_path(lex, oovs, text, q),
{
    if text.len() == 0 {
        assert(is_candidate_path(lex, oovs, text, Seq::<LatticeNode>::empty()));
    } else {
        lemma_greedy_walk(g, lex, oovs, text, 0);
        assert(is_candidate_path(lex, oovs, text, greedy_walk(lex, oovs, text, 0)));
    }
}

/// A character that no dictionary word contains lies, on any candidate path,
/// inside an out-of-vocabulary node.
pub proof fn lemma_unknown_char_is_oov(
    lex: &LexiconSet,
    oovs: Seq<OovProviderPlugin>,
    text: Seq<char>,
    q: Seq<LatticeNode>,
    s: int,
)
    requires
        is_candidate_path(lex, oovs, text, q),
        0 <= s < text.len(),
        forall|d: int, i: int, j: int|
            0 <= d < lex.lexicons@.len() && 0 <= i < lex.lexicons@[d].entries@.len() && 0 <= j
                < lex.entry(d, i).surface@.len() ==> #[trigger] lex.entry(d, i).surface@[j] != text[s],
    ensures
        exists|j: int| 0 <= j < q.len() && (#[trigger] q[j]).start <= s < q[j].end && q[j].dictionary_id is None,
{
    lemma_find_cover(lex, oovs, text, q, s, 0);
    let j = choose|j: int| 0 <= j < q.len() && (#[trigger] q[j]).start <= s < q[j].end;
    if q[j].dictionary_id is Some {
        assert(is_candidate(lex, oovs, text, q[j]));
        let (d, i) = choose|d: int, i: int| #[trigger] lex.entry_matches(text, q[j].start as int, d, i)
            && q[j] == lexicon_node(lex, d, i, q[j].start as int);
        let sf = lex.entry(d, i).surface@;
        let st = q[j].start as int;
        assert(text.subrange(st, st + sf.len())[s - st] == text[s]);
        assert(sf[s - st] == text[s]);
    }
}

proof fn lemma_find_cover(
    lex: &LexiconSet,
    oovs: Seq<OovProviderPlugin>,
    text: Seq<char>,
    q: Seq<LatticeNode>,
    s: int,
    k: int,
)
    requires
        is_candidate_path(lex, oovs, text, q),
        0 <= s < text.len(),
        0 <= k < q.len(),
        q[k].start <= s,
    ensures
        exists|j: int| 0 <= j < q.len() && (#[trigger] q[j]).start <= s < q[j].end,
    decreases q.len() - k,
{
    if q[k].end <= s {
        if k + 1 < q.len() {
            let j = k + 1;
            assert(q[j - 1].end == q[j].start);
            lemma_find_cover(lex, oovs, text, q, s, k + 1);
        } else {
            assert(q.last() == q[k]);
        }
    } else {
        assert(q[k].start <= s < q[k].end);
    }
}

/// Normalization applies the plugins in their configured order: with `a`
/// before `b`, `b` rewrites the output of `a`.
pub proof fn lemma_plugins_apply_in_order(a: CharMapPlugin, b: CharMapPlugin, text: Seq<char>)
    ensures
        normalized(seq![a, b], text) == b.rewrite_spec(a.rewrite_spec(text)),
        normalized(seq![b, a], text) == a.rewrite_spec(b.rewrite_spec(text)),
{
    let none = Seq::<CharMapPlugin>::empty();
    assert(normalized(none, text) == text);
    assert(seq![a].drop_last() =~= none);
    assert(normalized(seq![a], text) == a.rewrite_spec(text));
    assert(seq![b].drop_last() =~= none);
    assert(normalized(seq![b], text) == b.rewrite_spec(text));
    assert(seq![a, b].drop_last() =~= seq![a]);
    assert(seq![b, a].drop_last() =~= seq![b]);
}

/// Normalization keeps the number of characters.
pub proof fn lemma_normalized_len(plugins: Seq<CharMapPlugin>, text: Seq<char>)
    ensures
        normalized(plugins, text).len() == text.len(),
    decreases plugins.len(),
{
    if plugins.len() > 0 {
        lemma_normalized_len(plugins.drop_last(), text);
    }
}

/// Node ids small enough to form a word id.
pub open spec fn ids_fit(n: LatticeNode) -> bool {
    &&& n.entry < MAX_ENTRIES
    &&& (n.dictionary_id matches Some(d) ==> d < MAX_DICTIONARIES)
}

/// Every candidate node of `text`, in ascending order of start; or the first
/// offset that no node covers.
#[verifier::rlimit(50)]
pub fn build_lattice(g: &Grammar, lex: &LexiconSet, oovs: &Vec<OovProviderPlugin>, text: &Vec<char>) -> (r:
    Result<Vec<LatticeNode>, usize>)
    requires
        g.wf(),
        lex.wf(g),
        forall|k: int| 0 <= k < oovs@.len() ==> (#[trigger] oovs@[k]).wf(g),
        oovs@.len() < MAX_ENTRIES,
        text@.len() <= u32::MAX,
    ensures
        r is Ok ==> nodes_ok(g, text@.len() as int, r->Ok_0@),
        r is Ok ==> forall|k: int| 0 <= k < r->Ok_0@.len()
            ==> is_candidate(lex, oovs@, text@, #[trigger] r->Ok_0@[k]) && ids_fit(r->Ok_0@[k]),
        r is Ok ==> forall|n: LatticeNode| #[trigger] is_candidate(lex, oovs@, text@, n) ==> r->Ok_0@.contains(n),
        r is Err ==> oovs@.len() == 0 && r->Err_0 < text@.len() && !covered(lex, text@, r->Err_0 as int),
        r is Ok ==> oovs@.len() > 0 || forall|s: int| 0 <= s < text@.len() ==> #[trigger] covered(lex, text@, s),
{
    let len = text.len();
    let mut nodes: Vec<LatticeNode> = Vec::new();
    let mut s: usize = 0;
    while s < len
        invariant
            len == text@.len(),
            len <= u32::MAX,
            g.wf(),
            lex.wf(g),
            forall|k: int| 0 <= k < oovs@.len() ==> (#[trigger] oovs@[k]).wf(g),
            oovs@.len() < MAX_ENTRIES,
            s <= len,
            nodes_ok(g, len as int, nodes@),
            forall|k: int| 0 <= k < nodes@.len() ==> (#[trigger] nodes@[k]).start < s,
            forall|k: int| 0 <= k < nodes@.len()
                ==> is_candidate(lex, oovs@, text@, #[trigger] nodes@[k]) && ids_fit(nodes@[k]),
            forall|n: LatticeNode| #[trigger] is_candidate(lex, oovs@, text@, n) && n.start < s ==> nodes@.contains(n),
            oovs@.len() > 0 || forall|t: int| 0 <= t < s ==> #[trigger] covered(lex, text@, t),
        decreases len - s,
    {
        let found = lex.lookup(text, s);
        let ghost base = nodes@;
        let mut m: usize = 0;
        while m < found.len()
            invariant
                len == text@.len(),
                len <= u32::MAX,
                g.wf(),
                lex.wf(g),
                s < len,
                m <= found@.len(),
                base.len() <= nodes@.len(),
                forall|k: int| 0 <= k < base.len() ==> nodes@[k] == base[k],
                forall|k: int| 0 <= k < found@.len()
                    ==> lex.entry_matches(text@, s as int, (#[trigger] found@[k]).0 as int, found@[k].1 as int),
                nodes_ok(g, len as int, nodes@),
                forall|k: int| 0 <= k < base.len() ==> (#[trigger] base[k]).start < s,
                forall|k: int| 0 <= k < nodes@.len() ==> (#[trigger] nodes@[k]).start <= s,
                forall|k: int| 0 <= k < nodes@.len()
                    ==> is_candidate(lex, oovs@, text@, #[trigger] nodes@[k]) && ids_fit(nodes@[k]),
                forall|k: int| 0 <= k < m ==> nodes@.contains(
                    lexicon_node(lex, (#[trigger] found@[k]).0 as int, found@[k].1 as int, s as int)),
            decreases found@.len() - m,
        {
            let (d, i) = found[m];
            assert(lex.entry_matches(text@, s as int, d as int, i as int));
            let e = &lex.lexicons[d].entries[i];
            assert(lex.lexicons@[d as int].wf(g, g.pos_list@.len() as int));
            assert(e.wf(g, g.pos_list@.len() as int));
            let node = LatticeNode {
                start: s,
                end: s + e.surface.len(),
                left_id: e.left_id,
                right_id: e.right_id,
                cost: e.cost,
                dictionary_id: Some(d),
                entry: i,
            };
            assert(node == lexicon_node(lex, d as int, i as int, s as int));
            let ghost prev = nodes@;
            nodes.push(node);
            proof {
                assert(nodes@[prev.len() as int] == node);
                assert forall|k: int| 0 <= k < m + 1 implies nodes@.contains(
                    lexicon_node(lex, (#[trigger] found@[k]).0 as int, found@[k].1 as int, s as int)) by {
                    if k < m {
                        let x = choose|x: int| 0 <= x < prev.len() && prev[x] == lexicon_node(
                            lex, found@[k].0 as int, found@[k].1 as int, s as int);
                        assert(nodes@[x] == prev[x]);
                    }
                }
                assert(is_candidate(lex, oovs@, text@, node));
            }
            m += 1;
        }
        if found.len() == 0 {
            assert(!covered(lex, text@, s as int));
            if oovs.len() == 0 {
                return Err(s);
            }
            let mut k: usize = 0;
            while k < oovs.len()
                invariant
                    len == text@.len(),
                    len <= u32::MAX,
                    g.wf(),
                    s < len,
                    k <= oovs@.len(),
                    !covered(lex, text@, s as int),
                    forall|kk: int| 0 <= kk < oovs@.len() ==> (#[trigger] oovs@[kk]).wf(g),
                    base.len() <= nodes@.len(),
                    forall|kk: int| 0 <= kk < base.len() ==> nodes@[kk] == base[kk],
                    nodes_ok(g, len as int, nodes@),
                    forall|kk: int| 0 <= kk < nodes@.len() ==> (#[trigger] nodes@[kk]).start <= s,
                    forall|kk: int| 0 <= kk < nodes@.len()
                        ==> is_candidate(lex, oovs@, text@, #[trigger] nodes@[kk]) && ids_fit(nodes@[kk]),
                    forall|kk: int| 0 <= kk < k ==> nodes@.contains(oov_node(#[trigger] oovs@[kk], kk, s as int)),
                    oovs@.len() < MAX_ENTRIES,
                decreases oovs@.len() - k,
            {
                let p = &oovs[k];
                assert(p.wf(g));
                let node = LatticeNode {
                    start: s,
                    end: s + 1,
                    left_id: p.left_id,
                    right_id: p.right_id,
                    cost: p.cost,
                    dictionary_id: None,
                    entry: k,
                };
                assert(node == oov_node(oovs@[k as int], k as int, s as int));
                let ghost prev = nodes@;
                nodes.push(node);
                proof {
                    assert(nodes@[prev.len() as int] == node);
                    assert forall|kk: int| 0 <= kk < k + 1 implies nodes@.contains(
                        oov_node(#[trigger] oovs@[kk], kk, s as int)) by {
                        if kk < k {
                            let x = choose|x: int| 0 <= x < prev.len() && prev[x] == oov_node(oovs@[kk], kk, s as int);
                            assert(nodes@[x] == prev[x]);
                        }
                    }
                    assert(is_candidate(lex, oovs@, text@, node));
                }
                k += 1;
            }
        }
        proof {
            if found@.len() > 0 {
                assert(lex.entry_matches(text@, s as int, found@[0].0 as int, found@[0].1 as int));
                assert(covered(lex, text@, s as int));
            }
            assert forall|n: LatticeNode| #[trigger] is_candidate(lex, oovs@, text@, n) && n.start < s + 1
                implies nodes@.contains(n) by {
                if n.start < s {
                    let x = choose|x: int| 0 <= x < base.len() && base[x] == n;
                    assert(nodes@[x] == base[x]);
                } else {
                    if exists|d: int, i: int| #[trigger] lex.entry_matches(text@, n.start as int, d, i)
                        && n == lexicon_node(lex, d, i, n.start as int) {
                        let (d, i) = choose|d: int, i: int| #[trigger] lex.entry_matches(text@, n.start as int, d, i)
                            && n == lexicon_node(lex, d, i, n.start as int);
                        assert(found@.contains((d as usize, i as usize)));
                        let x = choose|x: int| 0 <= x < found@.len() && found@[x] == (d as usize, i as usize);
                        assert(nodes@.contains(lexicon_node(lex, found@[x].0 as int, found@[x].1 as int, s as int)));
                    } else {
                        let kk = choose|kk: int| 0 <= kk < oovs@.len() && n == oov_node(#[trigger] oovs@[kk], kk, n.start as int);
                        if found@.len() > 0 {
                            let (d, i) = (found@[0].0 as int, found@[0].1 as int);
                            assert(lex.entry_matches(text@, s as int, d, i));
                        }
                        assert(nodes@.contains(oov_node(oovs@[kk], kk, s as int)));
                    }
                }
            }
        }
        s += 1;
    }
    Ok(nodes)
}

proof fn lemma_paths_agree(
    lex: &LexiconSet,
    oovs: Seq<OovProviderPlugin>,
    text: Seq<char>,
    nodes: Seq<LatticeNode>,
    q: Seq<LatticeNode>,
)
    requires
        forall|k: int| 0 <= k < nodes.len() ==> is_candidate(lex, oovs, text, #[trigger] nodes[k]),
        forall|n: LatticeNode| #[trigger] is_candidate(lex, oovs, text, n) ==> nodes.contains(n),
    ensures
        is_full_path(nodes, text.len() as int, q) == is_candidate_path(lex, oovs, text, q),
{
    if q.len() > 0 {
        if is_full_path(nodes, text.len() as int, q) {
            assert forall|j: int| 0 <= j < q.len() implies is_candidate(lex, oovs, text, #[trigger] q[j]) by {
                assert(nodes.contains(q[j]));
            }
        }
        if is_candidate_path(lex, oovs, text, q) {
            assert forall|j: int| 0 <= j < q.len() implies nodes.contains(#[trigger] q[j]) by {
                assert(is_candidate(lex, oovs, text, q[j]));
            }
        }
    }
}

/// Builds the input text of `text` and runs every plugin on it, in order.
pub fn normalize_text(plugins: &Vec<CharMapPlugin>, text: &str) -> (r: InputText)
    requires
        forall|k: int| 0 <= k < plugins@.len() ==> (#[trigger] plugins@[k]).is_set_up(),
    ensures
        r.wf(),
        r.original@ == text@,
        r.modified@ == normalized(plugins@, text@),
        r.modified@.len() == text@.len(),
        forall|i: int| 0 <= i <= text@.len() ==> #[trigger] r.offsets@[i] == i,
{
    let mut it = InputText::new(text);
    let mut i: usize = 0;
    while i < plugins.len()
        invariant
            forall|k: int| 0 <= k < plugins@.len() ==> (#[trigger] plugins@[k]).is_set_up(),
            i <= plugins@.len(),
            it.wf(),
            it.original@ == text@,
            it.modified@ == normalized(plugins@.subrange(0, i as int), text@),
            it.modified@.len() == text@.len(),
            forall|k: int| 0 <= k <= text@.len() ==> #[trigger] it.offsets@[k] == k,
        decreases plugins@.len() - i,
    {
        assert(plugins@[i as int].is_set_up());
        plugins[i].apply(&mut it);
        proof {
            let sub = plugins@.subrange(0, i + 1);
            assert(sub.drop_last() =~= plugins@.subrange(0, i as int));
            assert(sub.last() == plugins@[i as int]);
        }
        i += 1;
    }
    assert(plugins@.subrange(0, i as int) =~= plugins@);
    it
}

/// The nodes of `ms`, in order.
pub open spec fn nodes_of(ms: Seq<Morpheme>) -> Seq<LatticeNode> {
    Seq::new(ms.len(), |j: int| ms[j].node)
}

/// Splits texts into morphemes against a shared grammar, lexicon set and
/// plugin chains.
pub struct Tokenizer {
    pub grammar: Rc<Grammar>,
    pub lexicon_set: Rc<LexiconSet>,
    pub input_text_plugins: Rc<Vec<CharMapPlugin>>,
    pub oov_provider_plugins: Rc<Vec<OovProviderPlugin>>,
}

/// The parts that a tokenizer needs fit together.
pub open spec fn parts_wf(
    g: &Grammar,
    lex: &LexiconSet,
    plugins: Seq<CharMapPlugin>,
    oovs: Seq<OovProviderPlugin>,
) -> bool {
    &&& g.wf()
    &&& lex.wf(g)
    &&& forall|k: int| 0 <= k < oovs.len() ==> (#[trigger] oovs[k]).wf(g)
    &&& oovs.len() < MAX_ENTRIES
    &&& forall|k: int| 0 <= k < plugins.len() ==> (#[trigger] plugins[k]).is_set_up()
}

/// Normalizes `text` and finds the cheapest path of candidate nodes through it.
pub fn tokenize_nodes(
    g: &Grammar,
    lex: &LexiconSet,
    plugins: &Vec<CharMapPlugin>,
    oovs: &Vec<OovProviderPlugin>,
    text: &str,
) -> (r: Result<(InputText, Vec<LatticeNode>, i64), TokenizeErr>)
    requires
        parts_wf(g, lex, plugins@, oovs@),
        text@.len() <= u32::MAX,
    ensures
        r is Ok ==> {
            let (it, path, cost) = r->Ok_0;
            &&& cost == path_cost(g, path@)
            &&& it.wf()
            &&& it.original@ == text@
            &&& it.modified@ == normalized(plugins@, text@)
            &&& forall|i: int| 0 <= i <= text@.len() ==> #[trigger] it.offsets@[i] == i
            &&& is_candidate_path(lex, oovs@, it.modified@, path@)
            &&& forall|q: Seq<LatticeNode>| #[trigger] is_candidate_path(lex, oovs@, it.modified@, q)
                ==> path_cost(g, path@) <= path_cost(g, q)
            &&& forall|k: int| 0 <= k < path@.len() ==> ids_fit(#[trigger] path@[k])
            &&& (text@.len() == 0 ==> path@.len() == 0)
        },
        r matches Err(TokenizeErr::UncoveredOffset(s)) ==> oovs@.len() == 0 && s < text@.len()
            && !covered(lex, normalized(plugins@, text@), s as int),
        r matches Err(TokenizeErr::UnreachableEos) ==> forall|q: Seq<LatticeNode>|
            !#[trigger] is_candidate_path(lex, oovs@, normalized(plugins@, text@), q),
        oovs@.len() > 0 || (forall|s: int| 0 <= s < text@.len() ==> covered(lex, normalized(plugins@, text@), s))
            ==> r is Ok,
        oovs@.len() == 0 && (exists|s: int| 0 <= s < text@.len() && !covered(lex, normalized(plugins@, text@), s))
            ==> r matches Err(TokenizeErr::UncoveredOffset(_)),
{
    let it = normalize_text(plugins, text);
    proof {
        let t = normalized(plugins@, text@);
        if oovs@.len() > 0 || (forall|s: int| 0 <= s < text@.len() ==> covered(lex, t, s)) {
            lemma_candidate_path_exists(g, lex, oovs@, t);
        }
    }
    let nodes = match build_lattice(g, lex, oovs, &it.modified) {
        Ok(nodes) => nodes,
        Err(s) => {
            return Err(TokenizeErr::UncoveredOffset(s));
        },
    };
    let len = it.modified.len();
    match best_path(g, &nodes, len) {
        Some((path, cost)) => {
            proof {
                let t = it.modified@;
                assert forall|q: Seq<LatticeNode>| #[trigger] is_candidate_path(lex, oovs@, t, q)
                    implies path_cost(g, path@) <= path_cost(g, q) by {
                    lemma_paths_agree(lex, oovs@, t, nodes@, q);
                }
                lemma_paths_agree(lex, oovs@, t, nodes@, path@);
                assert forall|k: int| 0 <= k < path@.len() implies ids_fit(#[trigger] path@[k]) by {
                    assert(nodes@.contains(path@[k]));
                }
                if path@.len() > 0 {
                    assert(nodes@.contains(path@[0]));
                }
            }
            Ok((it, path, cost))
        },
        None => {
            proof {
                let t = it.modified@;
                if oovs@.len() == 0 && (exists|s: int| 0 <= s < text@.len() && !covered(lex, t, s)) {
                    let s = choose|s: int| 0 <= s < text@.len() && !covered(lex, t, s);
                    assert(covered(lex, t, s));
                }
                assert forall|q: Seq<LatticeNode>| !#[trigger] is_candidate_path(lex, oovs@, t, q) by {
                    lemma_paths_agree(lex, oovs@, t, nodes@, q);
                }
            }
            Err(TokenizeErr::UnreachableEos)
        },
    }
}

/// The word information of `m` is that of its dictionary entry; for an
/// out-of-vocabulary node, its normalized text with the provider's part of
/// speech.
pub open spec fn word_info_of(lex: &LexiconSet, oovs: Seq<OovProviderPlugin>, t: Seq<char>, m: Morpheme) -> bool {
    match m.node.dictionary_id {
        Some(d) => m.word_info.same_as(&lex.entry(d as int, m.node.entry as int).word_info),
        None => {
            &&& m.word_info.pos_id == oovs[m.node.entry as int].pos_id
            &&& m.word_info.surface@ == t.subrange(m.node.start as int, m.node.end as int)
            &&& m.word_info.normalized_form@ == m.word_info.surface@
            &&& m.word_info.dictionary_form@ == m.word_info.surface@
            &&& m.word_info.reading_form@.len() == 0
        },
    }
}

/// Two cheapest candidate paths through one text cost the same.
pub proof fn lemma_best_cost_unique(
    g: &Grammar,
    lex: &LexiconSet,
    oovs: Seq<OovProviderPlugin>,
    text: Seq<char>,
    p1: Seq<LatticeNode>,
    p2: Seq<LatticeNode>,
)
    requires
        is_candidate_path(lex, oovs, text, p1),
        is_candidate_path(lex, oovs, text, p2),
        forall|q: Seq<LatticeNode>| #[trigger] is_candidate_path(lex, oovs, text, q) ==> path_cost(g, p1) <= path_cost(g, q),
        forall|q: Seq<LatticeNode>| #[trigger] is_candidate_path(lex, oovs, text, q) ==> path_cost(g, p2) <= path_cost(g, q),
    ensures
        path_cost(g, p1) == path_cost(g, p2),
{
}

impl Tokenizer {
    pub open spec fn wf(&self) -> bool {
        parts_wf(&*self.grammar, &*self.lexicon_set, self.input_text_plugins@, self.oov_provider_plugins@)
    }

    pub fn new(
        grammar: Rc<Grammar>,
        lexicon_set: Rc<LexiconSet>,
        input_text_plugins: Rc<Vec<CharMapPlugin>>,
        oov_provider_plugins: Rc<Vec<OovProviderPlugin>>,
    ) -> (r: Tokenizer)
        ensures
            r.grammar == grammar,
            r.lexicon_set == lexicon_set,
            r.input_text_plugins == input_text_plugins,
            r.oov_provider_plugins == oov_provider_plugins,
    {
        Tokenizer { grammar, lexicon_set, input_text_plugins, oov_provider_plugins }
    }

    /// Splits `text` into the morphemes of a cheapest path through its
    /// lattice.
    pub fn tokenize(&self, text: &str) -> (r: Result<Vec<Morpheme>, TokenizeErr>)
        requires
            self.wf(),
            text@.len() <= u32::MAX,
        ensures
            r is Ok ==> {
                let ms = r->Ok_0@;
                let t = normalized(self.input_text_plugins@, text@);
                &&& exists|it: InputText| #[trigger] tiles_text(ms, it) && it.original@ == text@ && it.modified@ == t
                    && forall|i: int| 0 <= i <= text@.len() ==> #[trigger] it.offsets@[i] == i
                &&& is_candidate_path(&*self.lexicon_set, self.oov_provider_plugins@, t, nodes_of(ms))
                &&& forall|q: Seq<LatticeNode>| #[trigger] is_candidate_path(
                    &*self.lexicon_set,
                    self.oov_provider_plugins@,
                    t,
                    q,
                ) ==> path_cost(&*self.grammar, nodes_of(ms)) <= path_cost(&*self.grammar, q)
                &&& forall|j: int| 0 <= j < ms.len() ==> (#[trigger] ms[j]).wf() && ms[j].grammar == self.grammar
                &&& forall|j: int| 0 <= j < ms.len() ==> word_info_of(
                    &*self.lexicon_set,
                    self.oov_provider_plugins@,
                    t,
                    #[trigger] ms[j],
                )
            },
            text@.len() == 0 ==> r is Ok && r->Ok_0@.len() == 0,
            self.oov_provider_plugins@.len() > 0 || (forall|s: int| 0 <= s < text@.len() ==> covered(
                &*self.lexicon_set,
                normalized(self.input_text_plugins@, text@),
                s,
            )) ==> r is Ok,
            self.oov_provider_plugins@.len() == 0 && (exists|s: int| 0 <= s < text@.len() && !covered(
                &*self.lexicon_set,
                normalized(self.input_text_plugins@, text@),
                s,
            )) ==> r matches Err(TokenizeErr::UncoveredOffset(_)),
            r matches Err(TokenizeErr::UncoveredOffset(s)) ==> self.oov_provider_plugins@.len() == 0 && s
                < text@.len() && !covered(&*self.lexicon_set, normalized(self.input_text_plugins@, text@), s as int),
            r matches Err(TokenizeErr::UnreachableEos) ==> forall|q: Seq<LatticeNode>|
                !#[trigger] is_candidate_path(
                &*self.lexicon_set,
                self.oov_provider_plugins@,
                normalized(self.input_text_plugins@, text@),
                q,
            ),
    {
        let g: &Grammar = &*self.grammar;
        let lex: &LexiconSet = &*self.lexicon_set;
        let (it, path, _cost) = match tokenize_nodes(g, lex, &*self.input_text_plugins, &*self.oov_provider_plugins, text) {
            Ok(found) => found,
            Err(e) => {
                proof {
                    lemma_normalized_len(self.input_text_plugins@, text@);
                    if text@.len() == 0 {
                        assert(is_candidate_path(lex, self.oov_provider_plugins@, normalized(self.input_text_plugins@, text@), seq![]));
                    }
                }
                return Err(e);
            },
        };
        let ghost itv = it;
        let input_text = Rc::new(it);
        let mut ms: Vec<Morpheme> = Vec::new();
        let mut j: usize = 0;
        while j < path.len()
            invariant
                parts_wf(g, lex, self.input_text_plugins@, self.oov_provider_plugins@),
                g == &*self.grammar,
                lex == &*self.lexicon_set,
                *input_text == itv,
                itv.wf(),
                is_candidate_path(lex, self.oov_provider_plugins@, itv.modified@, path@),
                forall|k: int| 0 <= k < path@.len() ==> ids_fit(#[trigger] path@[k]),
                j <= path@.len(),
                ms@.len() == j,
                forall|k: int| 0 <= k < j ==> (#[trigger] ms@[k]).node == path@[k] && *ms@[k].input_text == itv
                    && ms@[k].grammar == self.grammar,
                forall|k: int| 0 <= k < j ==> word_info_of(lex, self.oov_provider_plugins@, itv.modified@, #[trigger] ms@[k]),
            decreases path@.len() - j,
        {
            let node = path[j];
            assert(is_candidate(lex, self.oov_provider_plugins@, itv.modified@, path@[j as int]));
            let word_info = match node.dictionary_id {
                Some(d) => {
                    lex.lexicons[d].entries[node.entry].word_info.copy()
                },
                None => {
                    let p = &self.oov_provider_plugins[node.entry];
                    let surface = string_of(&input_text.modified, node.start, node.end);
            assert(node.start <= node.end <= itv.modified@.len());
                    WordInfo {
                        surface: surface.clone(),
                        head_word_length: 1,
                        pos_id: p.pos_id,
                        normalized_form: surface.clone(),
                        dictionary_form: surface,
                        reading_form: String::new(),
                    }
                },
            };
            let m = Morpheme::new(input_text.clone(), word_info, self.grammar.clone(), node);
            assert(word_info_of(lex, self.oov_provider_plugins@, itv.modified@, m));
            ms.push(m);
            j += 1;
        }
        proof {
            let msv = ms@;
            assert(nodes_of(msv) =~= path@);
            assert forall|k: int| 0 <= k < msv.len() implies (#[trigger] msv[k]).wf() && msv[k].grammar == self.grammar by {
                assert(is_candidate(lex, self.oov_provider_plugins@, itv.modified@, path@[k]));
                assert(ids_fit(path@[k]));
            }
            if msv.len() > 0 {
                assert forall|k: int| 0 < k < msv.len() implies (#[trigger] msv[k - 1]).node.end == msv[k].node.start by {
                    assert(path@[k - 1].end == path@[k].start);
                }
            }
            assert(tiles_text(msv, itv));
            if text@.len() == 0 {
                assert(path@.len() == 0);
            }
        }
        Ok(ms)
    }
}

} // verus!
