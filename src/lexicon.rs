use vstd::prelude::*;

use crate::grammar::Grammar;

verus! {

/// Number of dictionaries a lexicon set can hold, the system one included.
pub const MAX_DICTIONARIES: usize = 16;

/// Number of entries a single lexicon can hold; a word id keeps the entry
/// index in the bits below the dictionary index.
pub const MAX_ENTRIES: usize = 0x1000_0000;

/// Occurrence cost of a user entry whose cost is computed while merging.
pub const COST_TO_CALCULATE: i16 = i16::MIN;

/// Morphological information of one entry.
pub struct WordInfo {
    pub surface: String,
    pub head_word_length: u16,
    pub pos_id: i16,
    pub normalized_form: String,
    pub dictionary_form: String,
    pub reading_form: String,
}

impl WordInfo {
    pub open spec fn same_as(&self, o: &WordInfo) -> bool {
        &&& self.surface@ == o.surface@
        &&& self.head_word_length == o.head_word_length
        &&& self.pos_id == o.pos_id
        &&& self.normalized_form@ == o.normalized_form@
        &&& self.dictionary_form@ == o.dictionary_form@
        &&& self.reading_form@ == o.reading_form@
    }

    /// A copy with the same text in every field.
    pub fn copy(&self) -> (r: WordInfo)
        ensures
            r.same_as(self),
    {
        WordInfo {
            surface: self.surface.clone(),
            head_word_length: self.head_word_length,
            pos_id: self.pos_id,
            normalized_form: self.normalized_form.clone(),
            dictionary_form: self.dictionary_form.clone(),
            reading_form: self.reading_form.clone(),
        }
    }
}

/// One word of a lexicon: its surface, its connection ids and occurrence
/// cost, and its information.
pub struct LexiconEntry {
    pub surface: Vec<char>,
    pub left_id: u16,
    pub right_id: u16,
    pub cost: i16,
    pub word_info: WordInfo,
}

/// The entries of one dictionary.
pub struct Lexicon {
    pub entries: Vec<LexiconEntry>,
}

impl LexiconEntry {
    /// Connection ids inside the matrix (the left id picks a column, the
    /// right id a row), a surface of one to `u16::MAX` characters, and a part
    /// of speech inside a table of `pos_size` entries.
    pub open spec fn wf(&self, grammar: &Grammar, pos_size: int) -> bool {
        &&& (self.left_id as int) < grammar.right_size
        &&& (self.right_id as int) < grammar.left_size
        &&& 0 < self.surface@.len() <= u16::MAX
        &&& 0 <= self.word_info.pos_id < pos_size
    }
}

impl Lexicon {
    pub open spec fn wf(&self, grammar: &Grammar, pos_size: int) -> bool {
        &&& self.entries@.len() < MAX_ENTRIES
        &&& forall|i: int| 0 <= i < self.entries@.len()
            ==> (#[trigger] self.entries@[i]).wf(grammar, pos_size)
    }

    /// Whether every entry fits the connection matrix of `grammar` and a
    /// part-of-speech table of `pos_size` entries.
    pub fn check(&self, grammar: &Grammar, pos_size: usize) -> (r: bool)
        ensures
            r == self.wf(grammar, pos_size as int),
    {
        if self.entries.len() >= MAX_ENTRIES {
            return false;
        }
        let mut i: usize = 0;
        while i < self.entries.len()
            invariant
                i <= self.entries@.len(),
                forall|k: int| 0 <= k < i ==> (#[trigger] self.entries@[k]).wf(grammar, pos_size as int),
            decreases self.entries@.len() - i,
        {
            let e = &self.entries[i];
            if !((e.left_id as usize) < grammar.right_size && (e.right_id as usize) < grammar.left_size
                && 0 < e.surface.len() && e.surface.len() <= u16::MAX as usize && 0 <= e.word_info.pos_id
                && (e.word_info.pos_id as usize) < pos_size) {
                assert(!self.entries@[i as int].wf(grammar, pos_size as int));
                return false;
            }
            i += 1;
        }
        true
    }
}

/// `e` is `o` with its part of speech moved up by `offset`.
pub open spec fn remapped(e: LexiconEntry, o: LexiconEntry, offset: int) -> bool {
    &&& e.surface@ == o.surface@
    &&& e.left_id == o.left_id
    &&& e.right_id == o.right_id
    &&& e.cost == o.cost
    &&& e.word_info.pos_id == o.word_info.pos_id + offset
    &&& e.word_info.surface@ == o.word_info.surface@
    &&& e.word_info.head_word_length == o.word_info.head_word_length
    &&& e.word_info.normalized_form@ == o.word_info.normalized_form@
    &&& e.word_info.dictionary_form@ == o.word_info.dictionary_form@
    &&& e.word_info.reading_form@ == o.word_info.reading_form@
}

/// The system lexicon followed by the user lexicons, in the order they were added.
pub struct LexiconSet {
    pub lexicons: Vec<Lexicon>,
}

/// `text` holds `surface` from `start` on.
pub open spec fn surface_at(text: Seq<char>, start: int, surface: Seq<char>) -> bool {
    &&& 0 <= start
    &&& start + surface.len() <= text.len()
    &&& text.subrange(start, start + surface.len()) == surface
}

/// Whether `text` holds `surface` from `start` on.
pub fn matches_at(text: &Vec<char>, start: usize, surface: &Vec<char>) -> (r: bool)
    ensures
        r == surface_at(text@, start as int, surface@),
{
    if surface.len() > text.len() || start > text.len() - surface.len() {
        return false;
    }
    let n = text.len();
    let mut k: usize = 0;
    while k < surface.len()
        invariant
            n == text@.len(),
            k <= surface@.len(),
            start + surface@.len() <= text@.len(),
            forall|j: int| 0 <= j < k ==> text@[start + j] == surface@[j],
        decreases surface@.len() - k,
    {
        if text[start + k] != surface[k] {
            assert(text@.subrange(start as int, start + surface@.len())[k as int] != surface@[k as int]);
            return false;
        }
        k += 1;
    }
    assert(text@.subrange(start as int, start + surface@.len()) =~= surface@);
    true
}

impl LexiconSet {
    pub open spec fn wf(&self, grammar: &Grammar) -> bool {
        &&& 0 < self.lexicons@.len() <= MAX_DICTIONARIES
        &&& forall|d: int| 0 <= d < self.lexicons@.len()
            ==> (#[trigger] self.lexicons@[d]).wf(grammar, grammar.pos_list@.len() as int)
    }

    /// Entry `i` of dictionary `d` exists and its surface stands at `start`.
    pub open spec fn entry_matches(&self, text: Seq<char>, start: int, d: int, i: int) -> bool {
        &&& 0 <= d < self.lexicons@.len()
        &&& 0 <= i < self.lexicons@[d].entries@.len()
        &&& surface_at(text, start, self.lexicons@[d].entries@[i].surface@)
    }

    pub open spec fn entry(&self, d: int, i: int) -> LexiconEntry {
        self.lexicons@[d].entries@[i]
    }

    pub fn new(system: Lexicon) -> (r: LexiconSet)
        ensures
            r.lexicons@ == seq![system],
    {
        let mut lexicons: Vec<Lexicon> = Vec::new();
        lexicons.push(system);
        LexiconSet { lexicons }
    }

    /// Appends `lexicon` as the next dictionary, moving the part of speech of
    /// each of its entries up by `pos_offset`.
    pub fn add(&mut self, lexicon: Lexicon, pos_offset: usize)
        requires
            !(old(self).lexicons@.len() >= MAX_DICTIONARIES),
            forall|i: int| 0 <= i < lexicon.entries@.len() ==> 0 <= (#[trigger] lexicon.entries@[i]).word_info.pos_id
                && lexicon.entries@[i].word_info.pos_id + pos_offset <= i16::MAX,
        ensures
            final(self).lexicons@.len() == old(self).lexicons@.len() + 1,
            forall|d: int| 0 <= d < old(self).lexicons@.len() ==> #[trigger] final(self).lexicons@[d] == old(self).lexicons@[d],
            final(self).lexicons@.last().entries@.len() == lexicon.entries@.len(),
            forall|i: int| 0 <= i < lexicon.entries@.len() ==> remapped(
                #[trigger] final(self).lexicons@.last().entries@[i],
                lexicon.entries@[i],
                pos_offset as int,
            ),
    {
        let mut lexicon = lexicon;
        let ghost orig = lexicon;
        let mut i: usize = 0;
        while i < lexicon.entries.len()
            invariant
                i <= lexicon.entries@.len(),
                lexicon.entries@.len() == orig.entries@.len(),
                forall|k: int| 0 <= k < orig.entries@.len() ==> 0 <= (#[trigger] orig.entries@[k]).word_info.pos_id
                    && orig.entries@[k].word_info.pos_id + pos_offset <= i16::MAX,
                forall|k: int| 0 <= k < i ==> remapped(#[trigger] lexicon.entries@[k], orig.entries@[k], pos_offset as int),
                forall|k: int| i <= k < lexicon.entries@.len() ==> #[trigger] lexicon.entries@[k] == orig.entries@[k],
            decreases lexicon.entries@.len() - i,
        {
            let p = lexicon.entries[i].word_info.pos_id;
            assert(orig.entries@[i as int].word_info.pos_id == p);
            lexicon.entries[i].word_info.pos_id = (p as usize + pos_offset) as i16;
            i += 1;
        }
        self.lexicons.push(lexicon);
    }

    /// No further dictionary can be added.
    pub fn is_full(&self) -> (r: bool)
        ensures
            r == (self.lexicons@.len() >= MAX_DICTIONARIES),
    {
        self.lexicons.len() >= MAX_DICTIONARIES
    }

    /// Every entry whose surface stands in `text` at `start`, as pairs of
    /// dictionary index and entry index, dictionaries in ascending order and
    /// entries in their order inside each.
    pub fn lookup(&self, text: &Vec<char>, start: usize) -> (r: Vec<(usize, usize)>)
        ensures
            forall|k: int| 0 <= k < r@.len()
                ==> self.entry_matches(text@, start as int, (#[trigger] r@[k]).0 as int, r@[k].1 as int),
            forall|d: int, i: int| #[trigger] self.entry_matches(text@, start as int, d, i)
                ==> r@.contains((d as usize, i as usize)),
            forall|a: int, b: int| 0 <= a < b < r@.len()
                ==> (#[trigger] r@[a]).0 < (#[trigger] r@[b]).0
                    || (r@[a].0 == r@[b].0 && r@[a].1 < r@[b].1),
    {
        let mut r: Vec<(usize, usize)> = Vec::new();
        let mut d: usize = 0;
        while d < self.lexicons.len()
            invariant
                d <= self.lexicons@.len(),
                forall|k: int| 0 <= k < r@.len()
                    ==> self.entry_matches(text@, start as int, (#[trigger] r@[k]).0 as int, r@[k].1 as int)
                        && r@[k].0 < d,
                forall|dd: int, i: int| 0 <= dd < d && #[trigger] self.entry_matches(text@, start as int, dd, i)
                    ==> r@.contains((dd as usize, i as usize)),
                forall|a: int, b: int| 0 <= a < b < r@.len()
                    ==> (#[trigger] r@[a]).0 < (#[trigger] r@[b]).0
                        || (r@[a].0 == r@[b].0 && r@[a].1 < r@[b].1),
            decreases self.lexicons@.len() - d,
        {
            let entries = &self.lexicons[d].entries;
            let mut i: usize = 0;
            let ghost base = r@.len();
            while i < entries.len()
                invariant
                    d < self.lexicons@.len(),
                    entries == &self.lexicons@[d as int].entries,
                    i <= entries@.len(),
                    base <= r@.len(),
                    forall|k: int| 0 <= k < r@.len()
                        ==> self.entry_matches(text@, start as int, (#[trigger] r@[k]).0 as int, r@[k].1 as int)
                            && r@[k].0 <= d,
                    forall|k: int| base <= k < r@.len() ==> (#[trigger] r@[k]).0 == d && r@[k].1 < i,
                    forall|k: int| 0 <= k < base ==> (#[trigger] r@[k]).0 < d,
                    forall|dd: int, ii: int| 0 <= dd < d && #[trigger] self.entry_matches(text@, start as int, dd, ii)
                        ==> r@.contains((dd as usize, ii as usize)),
                    forall|ii: int| 0 <= ii < i && #[trigger] self.entry_matches(text@, start as int, d as int, ii)
                        ==> r@.contains((d, ii as usize)),
                    forall|a: int, b: int| 0 <= a < b < r@.len()
                        ==> (#[trigger] r@[a]).0 < (#[trigger] r@[b]).0
                            || (r@[a].0 == r@[b].0 && r@[a].1 < r@[b].1),
                decreases entries@.len() - i,
            {
                if matches_at(text, start, &entries[i].surface) {
                    let ghost prev = r@;
                    r.push((d, i));
                    assert forall|dd: int, ii: int| 0 <= dd < d && #[trigger] self.entry_matches(text@, start as int, dd, ii)
                        implies r@.contains((dd as usize, ii as usize)) by {
                        let k = choose|k: int| 0 <= k < prev.len() && prev[k] == (dd as usize, ii as usize);
                        assert(r@[k] == prev[k]);
                    }
                    assert forall|ii: int| 0 <= ii < i + 1 && #[trigger] self.entry_matches(text@, start as int, d as int, ii)
                        implies r@.contains((d, ii as usize)) by {
                        if ii < i {
                            let k = choose|k: int| 0 <= k < prev.len() && prev[k] == (d, ii as usize);
                            assert(r@[k] == prev[k]);
                        } else {
                            assert(r@[prev.len() as int] == (d, i));
                        }
                    }
                }
                i += 1;
            }
            d += 1;
        }
        r
    }
}

} // verus!
