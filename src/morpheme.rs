use std::rc::Rc;

use vstd::prelude::*;

use crate::grammar::{same_strings, Grammar};
use crate::input_text::InputText;
use crate::lattice::LatticeNode;
use crate::lexicon::{WordInfo, MAX_DICTIONARIES, MAX_ENTRIES};

verus! {

/// One morpheme of a tokenization: a lattice node with its word information,
/// read against the input text and the grammar it came from.
pub struct Morpheme {
    pub input_text: Rc<InputText>,
    pub word_info: WordInfo,
    pub grammar: Rc<Grammar>,
    pub node: LatticeNode,
}

/// Word id of a dictionary word: the dictionary index above the entry index.
pub open spec fn word_id_spec(node: LatticeNode) -> int {
    match node.dictionary_id {
        Some(d) => d * MAX_ENTRIES + node.entry,
        None => node.entry as int,
    }
}

impl Morpheme {
    /// The node lies inside the normalized text and its ids fit a word id.
    pub open spec fn wf(&self) -> bool {
        &&& self.input_text.wf()
        &&& self.node.start <= self.node.end <= self.input_text.modified@.len()
        &&& self.node.entry < MAX_ENTRIES
        &&& (self.node.dictionary_id matches Some(d) ==> d < MAX_DICTIONARIES)
    }

    /// The original characters that the morpheme covers.
    pub open spec fn surface_spec(&self) -> Seq<char> {
        self.input_text.original_span(self.node.start as int, self.node.end as int)
    }

    pub fn new(input_text: Rc<InputText>, word_info: WordInfo, grammar: Rc<Grammar>, node: LatticeNode) -> (r:
        Morpheme)
        ensures
            r.input_text == input_text,
            r.word_info == word_info,
            r.grammar == grammar,
            r.node == node,
    {
        Morpheme { input_text, word_info, grammar, node }
    }

    /// The original text behind the morpheme, before normalization.
    pub fn surface(&self) -> (r: String)
        requires
            self.wf(),
        ensures
            r@ == self.surface_spec(),
    {
        self.input_text.original_substring(self.node.start, self.node.end)
    }

    /// The subcategory strings of the morpheme's part of speech.
    pub fn part_of_speech(&self) -> (r: Vec<String>)
        ensures
            0 <= self.word_info.pos_id < self.grammar.pos_list@.len() ==> same_strings(
                r@,
                self.grammar.pos_list@[self.word_info.pos_id as int]@,
            ),
            !(0 <= self.word_info.pos_id < self.grammar.pos_list@.len()) ==> r@.len() == 0,
    {
        if self.word_info.pos_id < 0 {
            return Vec::new();
        }
        self.grammar.get_part_of_speech_string(self.word_info.pos_id as usize)
    }

    pub fn part_of_speech_id(&self) -> (r: i16)
        ensures
            r == self.word_info.pos_id,
    {
        self.word_info.pos_id
    }

    pub fn dictionary_form(&self) -> (r: &str)
        ensures
            r@ == self.word_info.dictionary_form@,
    {
        self.word_info.dictionary_form.as_str()
    }

    pub fn normalized_form(&self) -> (r: &str)
        ensures
            r@ == self.word_info.normalized_form@,
    {
        self.word_info.normalized_form.as_str()
    }

    pub fn reading_form(&self) -> (r: &str)
        ensures
            r@ == self.word_info.reading_form@,
    {
        self.word_info.reading_form.as_str()
    }

    pub fn is_oov(&self) -> (r: bool)
        ensures
            r == self.node.is_oov_spec(),
    {
        self.node.is_oov()
    }

    pub fn get_word_info(&self) -> (r: &WordInfo)
        ensures
            r == &self.word_info,
    {
        &self.word_info
    }

    /// For a dictionary word, its dictionary index above its entry index;
    /// for an out-of-vocabulary node, the index of the provider that made it.
    pub fn get_word_id(&self) -> (r: usize)
        requires
            self.wf(),
        ensures
            r == word_id_spec(self.node),
    {
        match self.node.dictionary_id {
            Some(d) => d * MAX_ENTRIES + self.node.entry,
            None => self.node.entry,
        }
    }

    /// The dictionary a word came from; `None` for an out-of-vocabulary node.
    pub fn dictionary_id(&self) -> (r: Option<usize>)
        ensures
            r == self.node.dictionary_id,
    {
        self.node.dictionary_id
    }
}

/// The surfaces of `ms`, one after another.
pub open spec fn joined_surfaces(ms: Seq<Morpheme>) -> Seq<char>
    decreases ms.len(),
{
    if ms.len() == 0 {
        Seq::empty()
    } else {
        joined_surfaces(ms.drop_last()) + ms.last().surface_spec()
    }
}

/// The morphemes read one input text and follow each other from its start to
/// its end.
pub open spec fn tiles_text(ms: Seq<Morpheme>, t: InputText) -> bool {
    &&& t.wf()
    &&& forall|j: int| 0 <= j < ms.len() ==> *(#[trigger] ms[j]).input_text == t
    &&& forall|j: int| 0 <= j < ms.len() ==> (#[trigger] ms[j]).node.start <= ms[j].node.end
    &&& forall|j: int| 0 < j < ms.len() ==> (#[trigger] ms[j - 1]).node.end == ms[j].node.start
    &&& (ms.len() == 0 ==> t.modified@.len() == 0)
    &&& (ms.len() > 0 ==> ms[0].node.start == 0 && ms.last().node.end == t.modified@.len())
}

proof fn lemma_joined_prefix(ms: Seq<Morpheme>, t: InputText, k: int)
    requires
        tiles_text(ms, t),
        0 < k <= ms.len(),
    ensures
        joined_surfaces(ms.subrange(0, k)) == t.original@.subrange(0, t.offsets@[ms[k - 1].node.end as int] as int),
    decreases k,
{
    let p = ms.subrange(0, k);
    assert(p.drop_last() =~= ms.subrange(0, k - 1));
    let m = ms[k - 1];
    assert(p.last() == m);
    let s = m.node.start as int;
    let e = m.node.end as int;
    lemma_ends_bounded(ms, t, k - 1);
    if k == 1 {
        assert(joined_surfaces(ms.subrange(0, 0)) =~= Seq::<char>::empty());
        assert(t.original@.subrange(0, t.offsets@[0] as int) =~= Seq::<char>::empty());
    } else {
        lemma_joined_prefix(ms, t, k - 1);
        assert(ms[k - 2].node.end == s);
    }
    assert(t.offsets@[s] <= t.offsets@[e]);
    assert(t.original@.subrange(0, t.offsets@[s] as int) + t.original@.subrange(t.offsets@[s] as int, t.offsets@[e] as int)
        =~= t.original@.subrange(0, t.offsets@[e] as int));
}

proof fn lemma_ends_bounded(ms: Seq<Morpheme>, t: InputText, k: int)
    requires
        tiles_text(ms, t),
        0 <= k < ms.len(),
    ensures
        forall|i: int| k <= i < ms.len() ==> ms[i].node.end <= t.modified@.len(),
    decreases ms.len() - k,
{
    if k + 1 < ms.len() {
        lemma_ends_bounded(ms, t, k + 1);
        let j = k + 1;
        assert(ms[j - 1].node.end == ms[j].node.start);
    }
}

/// Morphemes that tile a text, read one after another, give back the
/// original text exactly: nothing left out, nothing repeated.
pub proof fn lemma_surfaces_cover_text(ms: Seq<Morpheme>, t: InputText)
    requires
        tiles_text(ms, t),
    ensures
        joined_surfaces(ms) == t.original@,
{
    if ms.len() == 0 {
        assert(t.original@ =~= Seq::<char>::empty());
    } else {
        lemma_joined_prefix(ms, t, ms.len() as int);
        assert(ms.subrange(0, ms.len() as int) =~= ms);
        assert(t.original@.subrange(0, t.original@.len() as int) =~= t.original@);
    }
}

} // verus!
