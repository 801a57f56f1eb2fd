use std::rc::Rc;

use vstd::prelude::*;

use crate::character_category::CharacterCategory;
use crate::grammar::{same_strings, Grammar, BOS_EOS_ID};
use crate::input_text::string_of;
use crate::lattice::{partial_cost, path_cost, LatticeNode};
use crate::lexicon::{remapped, Lexicon, LexiconEntry, LexiconSet, COST_TO_CALCULATE, MAX_DICTIONARIES, MAX_ENTRIES};
use crate::plugin::{CharMapPlugin, InputTextPlugin, InputTextPluginGetErr, InputTextPluginSetupErr, OovProviderPlugin};
use crate::tokenizer::{
    covered, is_candidate, is_candidate_path, lexicon_node, normalized, parts_wf, tokenize_nodes, TokenizeErr, Tokenizer,
};

verus! {

/// Why a dictionary could not be built.
#[derive(Debug)]
pub enum DictionaryErr {
    /// More user dictionaries than the lexicon set can hold.
    TooManyDictionariesErr,
    /// A grammar or lexicon does not fit together with the system grammar.
    InvalidDictionaryErr,
    InputTextPluginSetupErr(InputTextPluginSetupErr),
    InputTextPluginGetErr(InputTextPluginGetErr),
    /// An out-of-vocabulary provider names ids outside the grammar.
    OovProviderPluginSetupErr,
    /// A user entry's cost could not be computed from its surface.
    CostCalculationErr(TokenizeErr),
}

/// A grammar and lexicon as read from a dictionary file.
pub struct BinaryDictionary {
    pub grammar: Grammar,
    pub lexicon: Lexicon,
}

/// Costs outside the range of an occurrence cost are cut to it; the lowest
/// value stays free to mark entries whose cost is to be computed.
pub open spec fn clamp_cost(c: int) -> int {
    if c > i16::MAX {
        i16::MAX as int
    } else if c < -(i16::MAX as int) {
        -(i16::MAX as int)
    } else {
        c
    }
}

/// `c` is the cost of a cheapest candidate path through `text`.
pub open spec fn is_min_cost(
    g: &Grammar,
    lex: &LexiconSet,
    oovs: Seq<OovProviderPlugin>,
    text: Seq<char>,
    c: int,
) -> bool {
    &&& exists|q: Seq<LatticeNode>| #[trigger] is_candidate_path(lex, oovs, text, q) && path_cost(g, q) == c
    &&& forall|q: Seq<LatticeNode>| #[trigger] is_candidate_path(lex, oovs, text, q) ==> c <= path_cost(g, q)
}

/// `e` is `o` with its cost computed from its surface when `o` asked for it.
pub open spec fn calibrated(
    e: LexiconEntry,
    o: LexiconEntry,
    g: &Grammar,
    lex: &LexiconSet,
    plugins: Seq<CharMapPlugin>,
    oovs: Seq<OovProviderPlugin>,
) -> bool {
    &&& e.surface@ == o.surface@
    &&& e.left_id == o.left_id
    &&& e.right_id == o.right_id
    &&& e.word_info == o.word_info
    &&& o.cost != COST_TO_CALCULATE ==> e.cost == o.cost
    &&& o.cost == COST_TO_CALCULATE ==> exists|c: int| #[trigger] is_min_cost(g, lex, oovs, normalized(plugins, o.surface@), c)
        && e.cost == clamp_cost(c)
}

/// Gives every entry of `lexicon` that asks for it the cost of a cheapest
/// tokenization of its own surface against the dictionaries built so far.
pub fn calculate_cost(
    lexicon: &mut Lexicon,
    g: &Grammar,
    lex: &LexiconSet,
    plugins: &Vec<CharMapPlugin>,
    oovs: &Vec<OovProviderPlugin>,
) -> (r: Result<(), TokenizeErr>)
    requires
        parts_wf(g, lex, plugins@, oovs@),
        forall|i: int| 0 <= i < old(lexicon).entries@.len() ==> (#[trigger] old(lexicon).entries@[i]).surface@.len()
            <= u16::MAX,
    ensures
        final(lexicon).entries@.len() == old(lexicon).entries@.len(),
        r is Ok ==> forall|i: int| 0 <= i < old(lexicon).entries@.len() ==> calibrated(
            #[trigger] final(lexicon).entries@[i],
            old(lexicon).entries@[i],
            g,
            lex,
            plugins@,
            oovs@,
        ),
        oovs@.len() > 0 ==> r is Ok,
        r is Err ==> oovs@.len() == 0 && exists|i: int| 0 <= i < old(lexicon).entries@.len()
            && (#[trigger] old(lexicon).entries@[i]).cost == COST_TO_CALCULATE && exists|s: int|
            0 <= s < old(lexicon).entries@[i].surface@.len() && !covered(
                lex,
                normalized(plugins@, old(lexicon).entries@[i].surface@),
                s,
            ),
{
    let ghost orig = *lexicon;
    let mut i: usize = 0;
    while i < lexicon.entries.len()
        invariant
            parts_wf(g, lex, plugins@, oovs@),
            i <= lexicon.entries@.len(),
            lexicon.entries@.len() == orig.entries@.len(),
            orig == *old(lexicon),
            forall|k: int| 0 <= k < orig.entries@.len() ==> (#[trigger] orig.entries@[k]).surface@.len() <= u16::MAX,
            forall|k: int| 0 <= k < i ==> calibrated(#[trigger] lexicon.entries@[k], orig.entries@[k], g, lex, plugins@, oovs@),
            forall|k: int| i <= k < lexicon.entries@.len() ==> #[trigger] lexicon.entries@[k] == orig.entries@[k],
        decreases lexicon.entries@.len() - i,
    {
        if lexicon.entries[i].cost == COST_TO_CALCULATE {
            let n = lexicon.entries[i].surface.len();
            let surface = string_of(&lexicon.entries[i].surface, 0, n);
            assert(surface@ =~= orig.entries@[i as int].surface@);
            match tokenize_nodes(g, lex, plugins, oovs, surface.as_str()) {
                Ok((_, path, c)) => {
                    let clamped: i16 = if c > i16::MAX as i64 {
                        i16::MAX
                    } else if c < -(i16::MAX as i64) {
                        -i16::MAX
                    } else {
                        c as i16
                    };
                    lexicon.entries[i].cost = clamped;
                    assert(is_min_cost(g, lex, oovs@, normalized(plugins@, orig.entries@[i as int].surface@), c as int));
                },
                Err(e) => {
                    proof {
                        let t = normalized(plugins@, orig.entries@[i as int].surface@);
                        assert(!(forall|s: int| 0 <= s < surface@.len() ==> covered(lex, t, s)));
                        let s = choose|s: int| !(0 <= s < surface@.len() ==> covered(lex, t, s));
                        assert(orig.entries@[i as int].cost == COST_TO_CALCULATE);
                    }
                    return Err(e);
                },
            }
        }
        i += 1;
    }
    Ok(())
}

/// A user entry whose normalized surface is exactly the surface of a system
/// entry gets, by calibration, a cost no higher than that system entry's
/// cost plus its connections to the start and end of text.
pub proof fn lemma_calibrated_cost_bound(
    g: &Grammar,
    lex: &LexiconSet,
    oovs: Seq<OovProviderPlugin>,
    text: Seq<char>,
    c: int,
    i: int,
)
    requires
        lex.wf(g),
        is_min_cost(g, lex, oovs, text, c),
        0 <= i < lex.lexicons@[0].entries@.len(),
        lex.entry(0, i).surface@ == text,
    ensures
        clamp_cost(c) <= clamp_cost(
            lex.entry(0, i).cost + g.cost_spec(BOS_EOS_ID as int, lex.entry(0, i).left_id as int) + g.cost_spec(
                lex.entry(0, i).right_id as int,
                BOS_EOS_ID as int,
            ),
        ),
{
    assert(lex.lexicons@[0].wf(g, g.pos_list@.len() as int));
    assert(lex.entry(0, i).wf(g, g.pos_list@.len() as int));
    assert(text.subrange(0, text.len() as int) =~= text);
    assert(lex.entry_matches(text, 0, 0, i));
    let n = lexicon_node(lex, 0, i, 0);
    assert(is_candidate(lex, oovs, text, n));
    let q = seq![n];
    assert(is_candidate_path(lex, oovs, text, q));
    assert(path_cost(g, q) == lex.entry(0, i).cost + g.cost_spec(BOS_EOS_ID as int, n.left_id as int) + g.cost_spec(
        n.right_id as int,
        BOS_EOS_ID as int,
    ));
}

proof fn lemma_lexicon_wf_grows(lexicon: &Lexicon, g: &Grammar, g2: &Grammar, p: int, p2: int)
    requires
        lexicon.wf(g, p),
        g2.left_size == g.left_size,
        g2.right_size == g.right_size,
        p <= p2,
    ensures
        lexicon.wf(g2, p2),
{
    assert forall|i: int| 0 <= i < lexicon.entries@.len() implies (#[trigger] lexicon.entries@[i]).wf(g2, p2) by {
        assert(lexicon.entries@[i].wf(g, p));
    }
}

/// The grammar, lexicons and plugin chains that tokenizers share.
pub struct Dictionary {
    pub grammar: Rc<Grammar>,
    pub lexicon_set: Rc<LexiconSet>,
    pub input_text_plugins: Rc<Vec<CharMapPlugin>>,
    pub oov_provider_plugins: Rc<Vec<OovProviderPlugin>>,
}

/// Number of part-of-speech entries of the system dictionary and the user
/// dictionaries together.
pub open spec fn total_pos(system: BinaryDictionary, users: Seq<BinaryDictionary>) -> int
    decreases users.len(),
{
    if users.len() == 0 {
        system.grammar.pos_list@.len() as int
    } else {
        total_pos(system, users.drop_last()) + users.last().grammar.pos_list@.len()
    }
}

/// `e` is the user entry `o` as merged: its part of speech moved up by
/// `offset`; a cost it asked for is the clamped cost of a cheapest
/// tokenization of its surface against the grammar `g` and the
/// dictionaries `lexs` merged before it.
pub open spec fn merged_entry(
    e: LexiconEntry,
    o: LexiconEntry,
    offset: int,
    g: &Grammar,
    lexs: Seq<Lexicon>,
    plugins: Seq<CharMapPlugin>,
    oovs: Seq<OovProviderPlugin>,
) -> bool {
    &&& e.surface@ == o.surface@
    &&& e.left_id == o.left_id
    &&& e.right_id == o.right_id
    &&& e.word_info.pos_id == o.word_info.pos_id + offset
    &&& e.word_info.surface@ == o.word_info.surface@
    &&& e.word_info.head_word_length == o.word_info.head_word_length
    &&& e.word_info.normalized_form@ == o.word_info.normalized_form@
    &&& e.word_info.dictionary_form@ == o.word_info.dictionary_form@
    &&& e.word_info.reading_form@ == o.word_info.reading_form@
    &&& (o.cost != COST_TO_CALCULATE ==> e.cost == o.cost)
    &&& (o.cost == COST_TO_CALCULATE ==> exists|lb: LexiconSet, c: int| lb.lexicons@ == lexs
        && #[trigger] is_min_cost(g, &lb, oovs, normalized(plugins, o.surface@), c) && e.cost == clamp_cost(c))
}

pub open spec fn merged_lexicon(
    l: Lexicon,
    o: Lexicon,
    offset: int,
    g: &Grammar,
    lexs: Seq<Lexicon>,
    plugins: Seq<CharMapPlugin>,
    oovs: Seq<OovProviderPlugin>,
) -> bool {
    &&& l.entries@.len() == o.entries@.len()
    &&& forall|i: int| 0 <= i < o.entries@.len() ==> merged_entry(
        #[trigger] l.entries@[i],
        o.entries@[i],
        offset,
        g,
        lexs,
        plugins,
        oovs,
    )
}

/// The part-of-speech table `g` starts with the system table, and the table
/// of each of the first `n` user dictionaries follows at its offset.
pub open spec fn pos_merged(g: Grammar, system: BinaryDictionary, users: Seq<BinaryDictionary>, n: int) -> bool {
    &&& system.grammar.pos_list@.len() <= g.pos_list@.len()
    &&& forall|j: int| 0 <= j < system.grammar.pos_list@.len() ==> same_strings(
        #[trigger] g.pos_list@[j]@,
        system.grammar.pos_list@[j]@,
    )
    &&& forall|k: int, j: int| 0 <= k < n && 0 <= j < users[k].grammar.pos_list@.len() ==> same_strings(
        g.pos_list@[total_pos(system, users.subrange(0, k)) + j]@,
        #[trigger] users[k].grammar.pos_list@[j]@,
    )
}

/// Every input fits: the system dictionary, the plugin settings, at least
/// one provider, each user dictionary, and the size of the merged
/// part-of-speech table.
pub open spec fn all_valid(
    system: BinaryDictionary,
    plugins: Seq<CharMapPlugin>,
    oovs: Seq<OovProviderPlugin>,
    users: Seq<BinaryDictionary>,
) -> bool {
    &&& system_ok(system)
    &&& forall|k: int| 0 <= k < plugins.len() ==> (#[trigger] plugins[k]).is_set_up()
    &&& 0 < oovs.len() < MAX_ENTRIES
    &&& forall|k: int| 0 <= k < oovs.len() ==> (#[trigger] oovs[k]).wf(&system.grammar)
    &&& forall|k: int| 0 <= k < users.len() ==> user_ok(system, #[trigger] users[k])
    &&& total_pos(system, users) <= i16::MAX
}

proof fn lemma_same_costs(g1: &Grammar, g2: &Grammar, q: Seq<LatticeNode>)
    requires
        g1.connect_costs@ == g2.connect_costs@,
        g1.right_size == g2.right_size,
    ensures
        partial_cost(g1, q) == partial_cost(g2, q),
        path_cost(g1, q) == path_cost(g2, q),
    decreases q.len(),
{
    if q.len() > 1 {
        lemma_same_costs(g1, g2, q.drop_last());
    }
}

proof fn lemma_min_cost_transfer(
    g1: &Grammar,
    g2: &Grammar,
    lex: &LexiconSet,
    oovs: Seq<OovProviderPlugin>,
    text: Seq<char>,
    c: int,
)
    requires
        g1.connect_costs@ == g2.connect_costs@,
        g1.right_size == g2.right_size,
        is_min_cost(g1, lex, oovs, text, c),
    ensures
        is_min_cost(g2, lex, oovs, text, c),
{
    let q = choose|q: Seq<LatticeNode>| #[trigger] is_candidate_path(lex, oovs, text, q) && path_cost(g1, q) == c;
    lemma_same_costs(g1, g2, q);
    assert forall|q2: Seq<LatticeNode>| #[trigger] is_candidate_path(lex, oovs, text, q2) implies c <= path_cost(g2, q2) by {
        lemma_same_costs(g1, g2, q2);
    }
}

proof fn lemma_total_pos_prefix(system: BinaryDictionary, users: Seq<BinaryDictionary>, a: int, b: int)
    requires
        0 <= a <= b <= users.len(),
    ensures
        total_pos(system, users.subrange(0, a)) <= total_pos(system, users.subrange(0, b)),
        system.grammar.pos_list@.len() <= total_pos(system, users.subrange(0, a)),
    decreases b,
{
    if b > 0 {
        let sb = users.subrange(0, b);
        assert(sb.drop_last() =~= users.subrange(0, b - 1));
        if a < b {
            lemma_total_pos_prefix(system, users, a, b - 1);
        } else {
            lemma_total_pos_prefix(system, users, b - 1, b - 1);
        }
    } else {
        assert(users.subrange(0, 0) =~= Seq::<BinaryDictionary>::empty());
    }
}

/// The system dictionary fits together with itself.
pub open spec fn system_ok(system: BinaryDictionary) -> bool {
    &&& system.grammar.wf()
    &&& system.lexicon.wf(&system.grammar, system.grammar.pos_list@.len() as int)
}

/// A user dictionary fits the connection matrix of the system grammar and
/// its own part-of-speech table.
pub open spec fn user_ok(system: BinaryDictionary, user: BinaryDictionary) -> bool {
    user.lexicon.wf(&system.grammar, user.grammar.pos_list@.len() as int)
}

impl Dictionary {
    pub open spec fn wf(&self) -> bool {
        parts_wf(&*self.grammar, &*self.lexicon_set, self.input_text_plugins@, self.oov_provider_plugins@)
    }

    pub fn get_grammar(&self) -> (r: Rc<Grammar>)
        ensures
            r == self.grammar,
    {
        self.grammar.clone()
    }

    /// Builds a dictionary from the system dictionary, the plugin chains and
    /// the user dictionaries, merged in order; each user entry that asks for
    /// it gets its cost from the dictionaries merged before it.
    pub fn new(
        system: BinaryDictionary,
        input_text_plugins: Vec<CharMapPlugin>,
        oov_provider_plugins: Vec<OovProviderPlugin>,
        user_dictionaries: Vec<BinaryDictionary>,
        character_category: CharacterCategory,
    ) -> (r: Result<Dictionary, DictionaryErr>)
        ensures
            r is Ok ==> r->Ok_0.grammar.character_category == Some(character_category),
            r is Ok ==> r->Ok_0.wf(),
            r is Ok ==> r->Ok_0.lexicon_set.lexicons@.len() == user_dictionaries@.len() + 1,
            r is Ok ==> r->Ok_0.lexicon_set.lexicons@[0] == system.lexicon,
            r is Ok ==> r->Ok_0.oov_provider_plugins@ == oov_provider_plugins@,
            r is Ok ==> r->Ok_0.input_text_plugins@ == input_text_plugins@,
            r is Ok ==> r->Ok_0.grammar.pos_list@.len() == total_pos(system, user_dictionaries@),
            r is Ok ==> pos_merged(*r->Ok_0.grammar, system, user_dictionaries@, user_dictionaries@.len() as int),
            r is Ok ==> forall|k: int| 0 <= k < user_dictionaries@.len() ==> merged_lexicon(
                #[trigger] r->Ok_0.lexicon_set.lexicons@[k + 1],
                user_dictionaries@[k].lexicon,
                total_pos(system, user_dictionaries@.subrange(0, k)),
                &system.grammar,
                r->Ok_0.lexicon_set.lexicons@.subrange(0, k + 1),
                input_text_plugins@,
                oov_provider_plugins@,
            ),
            all_valid(system, input_text_plugins@, oov_provider_plugins@, user_dictionaries@)
                && user_dictionaries@.len() < MAX_DICTIONARIES ==> r is Ok,
            all_valid(system, input_text_plugins@, oov_provider_plugins@, user_dictionaries@)
                && user_dictionaries@.len() >= MAX_DICTIONARIES ==> r matches Err(DictionaryErr::TooManyDictionariesErr),
            r matches Err(DictionaryErr::InputTextPluginSetupErr(_)) ==> exists|k: int|
                0 <= k < input_text_plugins@.len() && !(#[trigger] input_text_plugins@[k]).is_set_up(),
            r matches Err(DictionaryErr::CostCalculationErr(_)) ==> oov_provider_plugins@.len() == 0,
            !(r matches Err(DictionaryErr::InputTextPluginGetErr(_))),
            user_dictionaries@.len() >= MAX_DICTIONARIES ==> r is Err,
            r matches Err(DictionaryErr::TooManyDictionariesErr) ==> user_dictionaries@.len() >= MAX_DICTIONARIES,
            r matches Err(DictionaryErr::InvalidDictionaryErr) ==> !system_ok(system) || exists|k: int|
                0 <= k < user_dictionaries@.len() && (!user_ok(system, #[trigger] user_dictionaries@[k])
                    || total_pos(system, user_dictionaries@.subrange(0, k + 1)) > i16::MAX),
            r matches Err(DictionaryErr::OovProviderPluginSetupErr) ==> system_ok(system) && (oov_provider_plugins@.len()
                >= MAX_ENTRIES || exists|k: int| 0 <= k < oov_provider_plugins@.len()
                && !(#[trigger] oov_provider_plugins@[k]).wf(&system.grammar)),
    {
        let BinaryDictionary { grammar: mut grammar, lexicon: system_lexicon } = system;
        if !grammar.check() || !system_lexicon.check(&grammar, grammar.pos_list.len()) {
            return Err(DictionaryErr::InvalidDictionaryErr);
        }
        let mut lexicon_set = LexiconSet::new(system_lexicon);
        let mut plugins = input_text_plugins;
        let mut ready: Vec<CharMapPlugin> = Vec::new();
        while plugins.len() > 0
            invariant
                grammar == system.grammar,
                system_ok(system),
                lexicon_set.lexicons@ == seq![system.lexicon],
                ready@ + plugins@ == input_text_plugins@,
                forall|k: int| 0 <= k < ready@.len() ==> (#[trigger] ready@[k]).is_set_up(),
            decreases plugins@.len(),
        {
            let ghost before = plugins@;
            let mut p = plugins.remove(0);
            let ghost p0 = p;
            match p.setup() {
                Ok(()) => {},
                Err(e) => {
                    assert(input_text_plugins@[ready@.len() as int] == p0);
                    return Err(DictionaryErr::InputTextPluginSetupErr(e));
                },
            }
            ready.push(p);
            assert(ready@ + plugins@ =~= input_text_plugins@);
        }
        assert(ready@ =~= input_text_plugins@);
        let oovs = oov_provider_plugins;
        if oovs.len() >= MAX_ENTRIES {
            return Err(DictionaryErr::OovProviderPluginSetupErr);
        }
        let mut k: usize = 0;
        while k < oovs.len()
            invariant
                k <= oovs@.len(),
                grammar == system.grammar,
                system_ok(system),
                oovs@ == oov_provider_plugins@,
                forall|j: int| 0 <= j < k ==> (#[trigger] oovs@[j]).wf(&grammar),
            decreases oovs@.len() - k,
        {
            if !oovs[k].setup(&grammar) {
                return Err(DictionaryErr::OovProviderPluginSetupErr);
            }
            k += 1;
        }
        let ghost sys_grammar = grammar;
        let mut users = user_dictionaries;
        let ghost mut done: int = 0;
        while users.len() > 0
            invariant
                0 <= done <= user_dictionaries@.len(),
                users@ == user_dictionaries@.subrange(done, user_dictionaries@.len() as int),
                lexicon_set.lexicons@.len() == done + 1,
                lexicon_set.lexicons@[0] == system.lexicon,
                system.grammar == sys_grammar,
                system_ok(system),
                parts_wf(&grammar, &lexicon_set, ready@, oovs@),
                grammar.left_size == sys_grammar.left_size,
                grammar.right_size == sys_grammar.right_size,
                grammar.pos_list@.len() == total_pos(system, user_dictionaries@.subrange(0, done)),
                oovs@ == oov_provider_plugins@,
                ready@ == input_text_plugins@,
                grammar.connect_costs@ == sys_grammar.connect_costs@,
                pos_merged(grammar, system, user_dictionaries@, done),
                forall|kk: int| 0 <= kk < done ==> merged_lexicon(
                    #[trigger] lexicon_set.lexicons@[kk + 1],
                    user_dictionaries@[kk].lexicon,
                    total_pos(system, user_dictionaries@.subrange(0, kk)),
                    &sys_grammar,
                    lexicon_set.lexicons@.subrange(0, kk + 1),
                    ready@,
                    oovs@,
                ),
            decreases users@.len(),
        {
            if lexicon_set.is_full() {
                return Err(DictionaryErr::TooManyDictionariesErr);
            }
            let user = users.remove(0);
            let ghost uk = done;
            assert(user == user_dictionaries@[uk]);
            proof {
                let sub = user_dictionaries@.subrange(0, uk + 1);
                assert(sub.drop_last() =~= user_dictionaries@.subrange(0, uk));
                assert(sub.last() == user);
            }
            let BinaryDictionary { grammar: user_grammar, lexicon: mut user_lexicon } = user;
            if !user_lexicon.check(&grammar, user_grammar.pos_list.len()) {
                proof {
                    assert(!user.lexicon.wf(&system.grammar, user.grammar.pos_list@.len() as int)) by {
                        if user.lexicon.wf(&system.grammar, user.grammar.pos_list@.len() as int) {
                            lemma_lexicon_wf_grows(&user.lexicon, &system.grammar, &grammar,
                                user.grammar.pos_list@.len() as int, user.grammar.pos_list@.len() as int);
                        }
                    }
                }
                return Err(DictionaryErr::InvalidDictionaryErr);
            }
            if user_grammar.pos_list.len() > i16::MAX as usize - grammar.pos_list.len() {
                proof {
                    lemma_total_pos_prefix(system, user_dictionaries@, uk + 1, user_dictionaries@.len() as int);
                    assert(user_dictionaries@.subrange(0, user_dictionaries@.len() as int) =~= user_dictionaries@);
                }
                return Err(DictionaryErr::InvalidDictionaryErr);
            }
            assert forall|i: int| 0 <= i < user_lexicon.entries@.len()
                implies (#[trigger] user_lexicon.entries@[i]).surface@.len() <= u16::MAX by {
                assert(user_lexicon.entries@[i].wf(&grammar, user_grammar.pos_list@.len() as int));
            }
            let ghost before_cost = user_lexicon;
            match calculate_cost(&mut user_lexicon, &grammar, &lexicon_set, &ready, &oovs) {
                Ok(()) => {},
                Err(e) => {
                    return Err(DictionaryErr::CostCalculationErr(e));
                },
            }
            assert forall|i: int| 0 <= i < user_lexicon.entries@.len() implies 0 <= (#[trigger] user_lexicon.entries@[i]).word_info.pos_id
                && user_lexicon.entries@[i].word_info.pos_id + grammar.pos_list@.len() <= i16::MAX by {
                assert(before_cost.entries@[i].wf(&grammar, user_grammar.pos_list@.len() as int));
                assert(calibrated(user_lexicon.entries@[i], before_cost.entries@[i], &grammar, &lexicon_set, ready@, oovs@));
            }
            let ghost g_before = grammar;
            let ghost lex_before = lexicon_set;
            let offset = grammar.get_part_of_speech_size();
            lexicon_set.add(user_lexicon, offset);
            grammar.add_pos_list(&user_grammar);
            proof {
                let last = lexicon_set.lexicons@[uk + 1];
                let lexs = lexicon_set.lexicons@.subrange(0, uk + 1);
                assert(lexs =~= lex_before.lexicons@);
                assert forall|i: int| 0 <= i < before_cost.entries@.len() implies merged_entry(
                    #[trigger] last.entries@[i], before_cost.entries@[i], offset as int, &sys_grammar, lexs, ready@, oovs@) by {
                    assert(calibrated(user_lexicon.entries@[i], before_cost.entries@[i], &g_before, &lex_before, ready@, oovs@));
                    assert(remapped(last.entries@[i], user_lexicon.entries@[i], offset as int));
                    if before_cost.entries@[i].cost == COST_TO_CALCULATE {
                        let t = normalized(ready@, before_cost.entries@[i].surface@);
                        let c = choose|c: int| #[trigger] is_min_cost(&g_before, &lex_before, oovs@, t, c)
                            && user_lexicon.entries@[i].cost == clamp_cost(c);
                        lemma_min_cost_transfer(&g_before, &sys_grammar, &lex_before, oovs@, t, c);
                    }
                }
                assert forall|kk: int| 0 <= kk < uk + 1 implies merged_lexicon(
                    #[trigger] lexicon_set.lexicons@[kk + 1],
                    user_dictionaries@[kk].lexicon,
                    total_pos(system, user_dictionaries@.subrange(0, kk)),
                    &sys_grammar,
                    lexicon_set.lexicons@.subrange(0, kk + 1),
                    ready@,
                    oovs@,
                ) by {
                    if kk < uk {
                        assert(lexicon_set.lexicons@[kk + 1] == lex_before.lexicons@[kk + 1]);
                        assert(lexicon_set.lexicons@.subrange(0, kk + 1) =~= lex_before.lexicons@.subrange(0, kk + 1));
                    }
                }
                // the part-of-speech table grows by the user table
                let base = total_pos(system, user_dictionaries@.subrange(0, uk));
                assert forall|j: int| 0 <= j < system.grammar.pos_list@.len() implies same_strings(
                    #[trigger] grammar.pos_list@[j]@, system.grammar.pos_list@[j]@) by {
                    assert(same_strings(grammar.pos_list@[j]@, g_before.pos_list@[j]@));
                    assert(same_strings(g_before.pos_list@[j]@, system.grammar.pos_list@[j]@));
                }
                assert forall|k: int, j: int| 0 <= k < uk + 1 && 0 <= j < user_dictionaries@[k].grammar.pos_list@.len()
                    implies same_strings(
                    grammar.pos_list@[total_pos(system, user_dictionaries@.subrange(0, k)) + j]@,
                    #[trigger] user_dictionaries@[k].grammar.pos_list@[j]@) by {
                    let idx = total_pos(system, user_dictionaries@.subrange(0, k)) + j;
                    if k < uk {
                        let sk = user_dictionaries@.subrange(0, k + 1);
                        assert(sk.drop_last() =~= user_dictionaries@.subrange(0, k));
                        lemma_total_pos_prefix(system, user_dictionaries@, k + 1, uk);
                        lemma_total_pos_prefix(system, user_dictionaries@, k, k);
                        assert(idx < g_before.pos_list@.len());
                        assert(same_strings(grammar.pos_list@[idx]@, g_before.pos_list@[idx]@));
                        assert(same_strings(g_before.pos_list@[idx]@, user_dictionaries@[k].grammar.pos_list@[j]@));
                    } else {
                        assert(idx == g_before.pos_list@.len() + j);
                        assert(same_strings(grammar.pos_list@[g_before.pos_list@.len() + j]@, user_grammar.pos_list@[j]@));
                    }
                }
                done = done + 1;
                assert(users@ =~= user_dictionaries@.subrange(done, user_dictionaries@.len() as int));
                let p_new = grammar.pos_list@.len() as int;
                assert forall|d: int| 0 <= d < lexicon_set.lexicons@.len()
                    implies (#[trigger] lexicon_set.lexicons@[d]).wf(&grammar, p_new) by {
                    if d < lex_before.lexicons@.len() {
                        assert(lex_before.lexicons@[d].wf(&g_before, g_before.pos_list@.len() as int));
                        lemma_lexicon_wf_grows(&lexicon_set.lexicons@[d], &g_before, &grammar,
                            g_before.pos_list@.len() as int, p_new);
                    } else {
                        let last = lexicon_set.lexicons@[d];
                        assert forall|i: int| 0 <= i < last.entries@.len() implies (#[trigger] last.entries@[i]).wf(&grammar, p_new) by {
                            assert(before_cost.entries@[i].wf(&g_before, user_grammar.pos_list@.len() as int));
                            assert(calibrated(user_lexicon.entries@[i], before_cost.entries@[i], &g_before, &lex_before, ready@, oovs@));
                        }
                    }
                }
                assert forall|j: int| 0 <= j < oovs@.len() implies (#[trigger] oovs@[j]).wf(&grammar) by {
                    assert(oovs@[j].wf(&g_before));
                }
            }
        }
        proof {
            assert(user_dictionaries@.subrange(0, done) =~= user_dictionaries@);
        }
        let ghost g_merged = grammar;
        grammar.set_character_category(Some(character_category));
        proof {
            let p = grammar.pos_list@.len() as int;
            assert forall|d: int| 0 <= d < lexicon_set.lexicons@.len()
                implies (#[trigger] lexicon_set.lexicons@[d]).wf(&grammar, p) by {
                assert(lexicon_set.lexicons@[d].wf(&g_merged, p));
                lemma_lexicon_wf_grows(&lexicon_set.lexicons@[d], &g_merged, &grammar, p, p);
            }
            assert forall|j: int| 0 <= j < oovs@.len() implies (#[trigger] oovs@[j]).wf(&grammar) by {
                assert(oovs@[j].wf(&g_merged));
            }
            assert forall|j: int| 0 <= j < system.grammar.pos_list@.len() implies same_strings(
                #[trigger] grammar.pos_list@[j]@, system.grammar.pos_list@[j]@) by {
                assert(grammar.pos_list@[j] == g_merged.pos_list@[j]);
            }
        }
        Ok(Dictionary {
            grammar: Rc::new(grammar),
            lexicon_set: Rc::new(lexicon_set),
            input_text_plugins: Rc::new(ready),
            oov_provider_plugins: Rc::new(oovs),
        })
    }

    /// A tokenizer that shares this dictionary's grammar, lexicons and
    /// plugin chains.
    pub fn create(&self) -> (r: Tokenizer)
        ensures
            r.grammar == self.grammar,
            r.lexicon_set == self.lexicon_set,
            r.input_text_plugins == self.input_text_plugins,
            r.oov_provider_plugins == self.oov_provider_plugins,
            self.wf() ==> r.wf(),
    {
        Tokenizer::new(
            self.grammar.clone(),
            self.lexicon_set.clone(),
            self.input_text_plugins.clone(),
            self.oov_provider_plugins.clone(),
        )
    }
}

} // verus!
