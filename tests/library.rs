use sudachi::character_category::{CategoryRange, CharacterCategory, DEFAULT_CATEGORY};
use sudachi::dictionary::{BinaryDictionary, Dictionary, DictionaryErr};
use sudachi::grammar::Grammar;
use sudachi::lexicon::{Lexicon, LexiconEntry, WordInfo, COST_TO_CALCULATE};
use sudachi::plugin::{
    get_input_text_plugin, get_input_text_plugins, plugin_from_fields, CharMapPlugin, InputTextPlugin,
    InputTextPluginGetErr, InputTextPluginSetupErr, OovProviderPlugin, PluginDescriptor, PluginSettings,
};
use sudachi::tokenizer::TokenizeErr;

fn grammar_with(size: usize, costs: Vec<i16>) -> Grammar {
    Grammar {
        pos_list: vec![
            vec!["名詞".to_string(), "普通名詞".to_string()],
            vec!["動詞".to_string(), "一般".to_string()],
        ],
        left_size: size,
        right_size: size,
        connect_costs: costs,
        character_category: None,
    }
}

fn flat_grammar() -> Grammar {
    grammar_with(2, vec![0, 0, 0, 0])
}

fn entry(surface: &str, left: u16, right: u16, cost: i16, pos: i16, normalized: &str) -> LexiconEntry {
    LexiconEntry {
        surface: surface.chars().collect(),
        left_id: left,
        right_id: right,
        cost,
        word_info: WordInfo {
            surface: surface.to_string(),
            head_word_length: surface.chars().count() as u16,
            pos_id: pos,
            normalized_form: normalized.to_string(),
            dictionary_form: normalized.to_string(),
            reading_form: format!("{}-reading", surface),
        },
    }
}

fn system(grammar: Grammar, entries: Vec<LexiconEntry>) -> BinaryDictionary {
    BinaryDictionary { grammar, lexicon: Lexicon { entries } }
}

fn simple_oov() -> OovProviderPlugin {
    OovProviderPlugin { left_id: 0, right_id: 0, cost: 1000, pos_id: 0 }
}

fn char_map(from: &str, to: &str) -> CharMapPlugin {
    CharMapPlugin { from: from.chars().collect(), to: to.chars().collect() }
}

fn build(
    entries: Vec<LexiconEntry>,
    plugins: Vec<CharMapPlugin>,
    oovs: Vec<OovProviderPlugin>,
) -> Dictionary {
    match Dictionary::new(system(flat_grammar(), entries), plugins, oovs, vec![], CharacterCategory::new()) {
        Ok(d) => d,
        Err(e) => panic!("dictionary not built: {:?}", e),
    }
}

fn surfaces(d: &Dictionary, text: &str) -> Vec<String> {
    let t = d.create();
    t.tokenize(text).unwrap().iter().map(|m| m.surface()).collect()
}

#[test]
fn empty_input_gives_no_morphemes() {
    let d = build(vec![entry("a", 0, 0, 10, 0, "a")], vec![], vec![]);
    let ms = d.create().tokenize("").unwrap();
    assert!(ms.is_empty());
}

#[test]
fn picks_the_cheaper_segmentation() {
    let d = build(
        vec![entry("a", 0, 0, 10, 0, "a"), entry("b", 0, 0, 10, 0, "b"), entry("ab", 0, 0, 30, 0, "ab")],
        vec![],
        vec![],
    );
    assert_eq!(surfaces(&d, "ab"), vec!["a".to_string(), "b".to_string()]);
    let d = build(
        vec![entry("a", 0, 0, 10, 0, "a"), entry("b", 0, 0, 10, 0, "b"), entry("ab", 0, 0, 15, 0, "ab")],
        vec![],
        vec![],
    );
    assert_eq!(surfaces(&d, "ab"), vec!["ab".to_string()]);
}

#[test]
fn connection_costs_change_the_best_path() {
    // Row 1 / column 1 make "a" followed by "b" expensive.
    let g = grammar_with(2, vec![0, 0, 0, 500]);
    let entries = vec![entry("a", 1, 1, 10, 0, "a"), entry("b", 1, 1, 10, 0, "b"), entry("ab", 0, 0, 100, 0, "ab")];
    let d = Dictionary::new(system(g, entries), vec![], vec![], vec![], CharacterCategory::new()).unwrap();
    assert_eq!(surfaces(&d, "ab"), vec!["ab".to_string()]);
}

#[test]
fn best_path_cost_not_above_any_enumerated_path() {
    // Brute force over every segmentation of a short text.
    let words = [("a", 7i16), ("b", 3), ("c", 4), ("ab", 9), ("bc", 8), ("abc", 20)];
    let entries: Vec<LexiconEntry> = words.iter().map(|(w, c)| entry(w, 0, 0, *c, 0, w)).collect();
    let d = build(entries, vec![], vec![]);
    let ms = d.create().tokenize("abc").unwrap();
    let best: i64 = ms.iter().map(|m| {
        let w = m.surface();
        words.iter().find(|(s, _)| *s == w).unwrap().1 as i64
    }).sum();
    let mut all = vec![];
    for split in 0..4u32 {
        let mut parts = vec![];
        let mut cur = String::new();
        for (k, ch) in "abc".chars().enumerate() {
            cur.push(ch);
            if k == 2 || split & (1 << k) != 0 {
                parts.push(cur.clone());
                cur.clear();
            }
        }
        let cost: Option<i64> = parts
            .iter()
            .map(|p| words.iter().find(|(s, _)| s == p).map(|x| x.1 as i64))
            .sum();
        if let Some(c) = cost {
            all.push(c);
        }
    }
    assert!(all.iter().all(|c| best <= *c));
    assert_eq!(best, 13);
}

#[test]
fn tokenize_is_repeatable() {
    let d = build(
        vec![entry("東京", 0, 0, 100, 0, "東京"), entry("都", 0, 0, 50, 0, "都"), entry("京都", 0, 0, 100, 0, "京都")],
        vec![],
        vec![simple_oov()],
    );
    let t1 = d.create();
    let t2 = d.create();
    let a: Vec<(String, usize, Option<usize>)> =
        t1.tokenize("東京都").unwrap().iter().map(|m| (m.surface(), m.get_word_id(), m.dictionary_id())).collect();
    let b: Vec<(String, usize, Option<usize>)> =
        t2.tokenize("東京都").unwrap().iter().map(|m| (m.surface(), m.get_word_id(), m.dictionary_id())).collect();
    let c: Vec<(String, usize, Option<usize>)> =
        t1.tokenize("東京都").unwrap().iter().map(|m| (m.surface(), m.get_word_id(), m.dictionary_id())).collect();
    assert_eq!(a, b);
    assert_eq!(a, c);
    assert_eq!(a[0].0, "東京");
    assert_eq!(a[1].0, "都");
}

#[test]
fn surfaces_join_back_to_the_original_text() {
    let d = build(
        vec![entry("ab", 0, 0, 10, 0, "ab"), entry("c", 0, 0, 10, 0, "c")],
        vec![char_map("ＡＢ", "ab")],
        vec![simple_oov()],
    );
    let text = "ＡＢcx";
    let ms = d.create().tokenize(text).unwrap();
    let joined: String = ms.iter().map(|m| m.surface()).collect();
    assert_eq!(joined, text);
    assert_eq!(ms[0].surface(), "ＡＢ");
    assert_eq!(ms[0].normalized_form(), "ab");
}

#[test]
fn unknown_character_becomes_an_oov_morpheme() {
    let d = build(vec![entry("a", 0, 0, 10, 1, "a")], vec![], vec![simple_oov()]);
    let ms = d.create().tokenize("a☃a").unwrap();
    assert_eq!(ms.len(), 3);
    assert!(!ms[0].is_oov());
    assert!(ms[1].is_oov());
    assert_eq!(ms[1].surface(), "☃");
    assert_eq!(ms[1].dictionary_id(), None);
    assert_eq!(ms[1].part_of_speech_id(), 0);
    assert_eq!(ms[1].part_of_speech(), vec!["名詞".to_string(), "普通名詞".to_string()]);
    assert_eq!(ms[0].part_of_speech(), vec!["動詞".to_string(), "一般".to_string()]);
    assert_eq!(ms[0].reading_form(), "a-reading");
    assert_eq!(ms[0].dictionary_form(), "a");
    assert_eq!(ms[0].get_word_info().head_word_length, 1);
}

#[test]
fn uncovered_offset_without_oov_provider() {
    let d = build(vec![entry("a", 0, 0, 10, 0, "a")], vec![], vec![]);
    match d.create().tokenize("ab") {
        Err(TokenizeErr::UncoveredOffset(s)) => assert_eq!(s, 1),
        other => panic!("unexpected: {:?}", other.map(|v| v.len())),
    }
}

#[test]
fn first_uncovered_offset_is_reported() {
    // Without an out-of-vocabulary provider every offset needs a word that
    // starts there, also inside longer words.
    let d = build(vec![entry("a", 0, 0, 10, 0, "a"), entry("b", 0, 0, 10, 0, "b"), entry("ab", 0, 0, 5, 0, "ab")], vec![], vec![]);
    assert_eq!(surfaces(&d, "ab"), vec!["ab".to_string()]);
    match d.create().tokenize("abx") {
        Err(TokenizeErr::UncoveredOffset(s)) => assert_eq!(s, 2),
        other => panic!("unexpected: {:?}", other.map(|v| v.len())),
    }
    match d.create().tokenize("xab") {
        Err(TokenizeErr::UncoveredOffset(s)) => assert_eq!(s, 0),
        other => panic!("unexpected: {:?}", other.map(|v| v.len())),
    }
    let d = build(vec![entry("ab", 0, 0, 10, 0, "ab")], vec![], vec![]);
    match d.create().tokenize("ab") {
        Err(TokenizeErr::UncoveredOffset(s)) => assert_eq!(s, 1),
        other => panic!("unexpected: {:?}", other.map(|v| v.len())),
    }
}

#[test]
fn plugin_order_changes_the_result() {
    let entries = vec![entry("b", 0, 0, 10, 0, "B-word"), entry("c", 0, 0, 10, 0, "C-word")];
    let a_then_b = build(entries, vec![char_map("a", "b"), char_map("b", "c")], vec![]);
    let ms = a_then_b.create().tokenize("a").unwrap();
    assert_eq!(ms[0].normalized_form(), "C-word");
    assert_eq!(ms[0].surface(), "a");
    let entries = vec![entry("b", 0, 0, 10, 0, "B-word"), entry("c", 0, 0, 10, 0, "C-word")];
    let b_then_a = build(entries, vec![char_map("b", "c"), char_map("a", "b")], vec![]);
    let ms = b_then_a.create().tokenize("a").unwrap();
    assert_eq!(ms[0].normalized_form(), "B-word");
}

#[test]
fn user_dictionary_limit() {
    let users = |n: usize| -> Vec<BinaryDictionary> {
        (0..n).map(|_| system(flat_grammar(), vec![entry("x", 0, 0, 5, 0, "x")])).collect()
    };
    let sys = || system(flat_grammar(), vec![entry("a", 0, 0, 10, 0, "a")]);
    match Dictionary::new(sys(), vec![], vec![], users(16), CharacterCategory::new()) {
        Err(DictionaryErr::TooManyDictionariesErr) => {}
        Err(e) => panic!("wrong error {:?}", e),
        Ok(_) => panic!("built a dictionary past its capacity"),
    }
    let d = Dictionary::new(sys(), vec![], vec![], users(15), CharacterCategory::new()).unwrap();
    assert_eq!(d.lexicon_set.lexicons.len(), 16);
    assert_eq!(d.get_grammar().pos_list.len(), 2 * 16);
    assert!(d.get_grammar().character_category.is_some());
}

#[test]
fn user_entry_cost_follows_the_system_entry() {
    let sys = system(flat_grammar(), vec![entry("ab", 0, 0, 123, 0, "ab")]);
    let user = system(
        grammar_with(1, vec![0]),
        vec![entry("ab", 0, 0, COST_TO_CALCULATE, 1, "ab-user"), entry("a", 0, 0, 42, 0, "a")],
    );
    let d = Dictionary::new(sys, vec![], vec![simple_oov()], vec![user], CharacterCategory::new()).unwrap();
    let merged = &d.lexicon_set.lexicons[1].entries;
    assert_eq!(merged[0].cost, 123);
    assert_eq!(merged[1].cost, 42);
    // Part-of-speech ids of the user dictionary follow the system ones.
    assert_eq!(merged[0].word_info.pos_id, 3);
    let ms = d.create().tokenize("ab").unwrap();
    assert_eq!(ms.len(), 1);
    assert_eq!(ms[0].dictionary_id(), Some(0));
    let id = ms[0].get_word_id();
    assert_eq!(id, 0);
}

#[test]
fn user_entry_words_have_dictionary_ids() {
    let sys = system(flat_grammar(), vec![entry("a", 0, 0, 100, 0, "a")]);
    let user = system(grammar_with(1, vec![0]), vec![entry("b", 0, 0, 5, 0, "b")]);
    let d = Dictionary::new(sys, vec![], vec![], vec![user], CharacterCategory::new()).unwrap();
    let ms = d.create().tokenize("ab").unwrap();
    assert_eq!(ms[1].dictionary_id(), Some(1));
    assert_eq!(ms[1].get_word_id(), 0x1000_0000);
    assert_eq!(ms[1].part_of_speech_id(), 2);
}

#[test]
fn invalid_dictionaries_are_rejected() {
    let bad_matrix = system(grammar_with(2, vec![0, 0, 0]), vec![entry("a", 0, 0, 1, 0, "a")]);
    assert!(matches!(Dictionary::new(bad_matrix, vec![], vec![], vec![], CharacterCategory::new()), Err(DictionaryErr::InvalidDictionaryErr)));
    let bad_id = system(flat_grammar(), vec![entry("a", 5, 0, 1, 0, "a")]);
    assert!(matches!(Dictionary::new(bad_id, vec![], vec![], vec![], CharacterCategory::new()), Err(DictionaryErr::InvalidDictionaryErr)));
    let bad_pos = system(flat_grammar(), vec![entry("a", 0, 0, 1, 9, "a")]);
    assert!(matches!(Dictionary::new(bad_pos, vec![], vec![], vec![], CharacterCategory::new()), Err(DictionaryErr::InvalidDictionaryErr)));
    let bad_oov = OovProviderPlugin { left_id: 7, right_id: 0, cost: 0, pos_id: 0 };
    let sys = system(flat_grammar(), vec![entry("a", 0, 0, 1, 0, "a")]);
    assert!(matches!(Dictionary::new(sys, vec![], vec![bad_oov], vec![], CharacterCategory::new()), Err(DictionaryErr::OovProviderPluginSetupErr)));
    let sys = system(flat_grammar(), vec![entry("a", 0, 0, 1, 0, "a")]);
    assert!(matches!(
        Dictionary::new(sys, vec![char_map("ab", "c")], vec![], vec![], CharacterCategory::new()),
        Err(DictionaryErr::InputTextPluginSetupErr(InputTextPluginSetupErr::InvalidDefinitionErr))
    ));
}

#[test]
fn char_map_plugin_setup_and_rewrite() {
    let mut p = char_map("ａｂ", "ab");
    assert!(p.setup().is_ok());
    let mut it = sudachi::input_text::InputText::new("ａxｂ");
    assert!(p.rewrite(&mut it).is_ok());
    assert_eq!(it.modified, vec!['a', 'x', 'b']);
    assert_eq!(it.original, vec!['ａ', 'x', 'ｂ']);
    assert_eq!(it.get_original_index(3), 3);
    assert_eq!(it.original_substring(0, 2), "ａx");
}

fn descriptor(class: Option<&str>, from: Option<&str>, to: Option<&str>) -> PluginDescriptor {
    PluginDescriptor {
        class: class.map(|c| c.to_string()),
        from: from.map(|c| c.to_string()),
        to: to.map(|c| c.to_string()),
    }
}

#[test]
fn plugins_from_settings() {
    let settings = PluginSettings::List(vec![
        descriptor(Some("CharMapInputTextPlugin"), Some("ＡＢ"), Some("ab")),
        descriptor(Some("CharMapInputTextPlugin"), Some("x"), Some("y")),
    ]);
    let plugins = get_input_text_plugins(&settings).unwrap();
    assert_eq!(plugins.len(), 2);
    assert_eq!(plugins[0].from, vec!['Ａ', 'Ｂ']);
    assert_eq!(plugins[0].to, vec!['a', 'b']);
    assert_eq!(plugins[1].from, vec!['x']);
    assert_eq!(get_input_text_plugins(&PluginSettings::Missing).unwrap().len(), 0);
    assert!(matches!(get_input_text_plugins(&PluginSettings::NotAList), Err(InputTextPluginGetErr::InvalidFormatErr)));
    let settings = PluginSettings::List(vec![
        descriptor(Some("CharMapInputTextPlugin"), Some("a"), Some("b")),
        descriptor(Some("Unknown"), None, None),
        descriptor(None, None, None),
    ]);
    match get_input_text_plugins(&settings) {
        Err(InputTextPluginGetErr::InvalidClassErr(c)) => assert_eq!(c, "Unknown"),
        _ => panic!("expected the first failing descriptor's error"),
    }
}

#[test]
fn descriptor_errors() {
    match get_input_text_plugin(&descriptor(Some("NoSuchPlugin"), None, None)) {
        Err(InputTextPluginGetErr::InvalidClassErr(c)) => assert_eq!(c, "NoSuchPlugin"),
        _ => panic!("expected an invalid class"),
    }
    assert!(matches!(get_input_text_plugin(&descriptor(None, Some("a"), None)), Err(InputTextPluginGetErr::InvalidFormatErr)));
    assert!(matches!(
        get_input_text_plugin(&descriptor(Some("CharMapInputTextPlugin"), None, None)),
        Err(InputTextPluginGetErr::InvalidFormatErr)
    ));
    assert!(matches!(
        plugin_from_fields(Some("CharMapInputTextPlugin".to_string()), Some("x".to_string()), None),
        Err(InputTextPluginGetErr::InvalidFormatErr)
    ));
}

#[test]
fn replacing_a_run_keeps_the_offset_map() {
    let mut it = sudachi::input_text::InputText::new("abcd");
    assert!(it.replace(1, 3, &vec!['X']).is_ok());
    assert_eq!(it.modified, vec!['a', 'X', 'd']);
    assert_eq!(it.offsets, vec![0, 1, 3, 4]);
    assert_eq!(it.original_substring(1, 2), "bc");
    assert_eq!(it.original_substring(0, 3), "abcd");
    let mut it = sudachi::input_text::InputText::new("abc");
    assert!(it.replace(1, 1, &vec!['Y', 'Z']).is_ok());
    assert_eq!(it.modified, vec!['a', 'Y', 'Z', 'b', 'c']);
    assert_eq!(it.offsets, vec![0, 1, 1, 1, 2, 3]);
}

#[test]
fn deleting_keeps_every_original_character() {
    let mut it = sudachi::input_text::InputText::new("abc");
    assert!(it.replace(0, 1, &vec![]).is_ok());
    assert_eq!(it.modified, vec!['b', 'c']);
    assert_eq!(it.original_substring(0, 1), "ab");
    let mut it = sudachi::input_text::InputText::new("abc");
    assert!(it.replace(1, 2, &vec![]).is_ok());
    assert_eq!(it.original_substring(0, 1), "ab");
    assert_eq!(it.original_substring(1, 2), "c");
}

#[test]
fn replace_rejects_bad_spans() {
    let mut it = sudachi::input_text::InputText::new("abc");
    assert!(matches!(it.replace(2, 1, &vec!['x']), Err(sudachi::plugin::InputTextPluginReplaceErr::ReplaceErr)));
    assert!(matches!(it.replace(0, 4, &vec!['x']), Err(sudachi::plugin::InputTextPluginReplaceErr::ReplaceErr)));
    assert!(matches!(it.replace(0, 3, &vec![]), Err(sudachi::plugin::InputTextPluginReplaceErr::ReplaceErr)));
    assert_eq!(it.modified, vec!['a', 'b', 'c']);
    assert!(it.replace(0, 3, &vec!['z']).is_ok());
    assert_eq!(it.original_substring(0, 1), "abc");
}

#[test]
fn calibrated_cost_includes_connections_to_text_edges() {
    // Matrix: row = right id of the word before, column = left id of the word after.
    let g = grammar_with(2, vec![5, 7, 11, 13]);
    let sys = system(g, vec![entry("ab", 1, 1, 100, 0, "ab")]);
    let user = system(flat_grammar(), vec![entry("ab", 0, 0, COST_TO_CALCULATE, 0, "ab-user")]);
    let d = Dictionary::new(sys, vec![], vec![simple_oov()], vec![user], CharacterCategory::new()).unwrap();
    assert_eq!(d.lexicon_set.lexicons[1].entries[0].cost, 100 + 7 + 11);
}

#[test]
fn calibrated_cost_is_cut_to_the_cost_range() {
    let sys = system(grammar_with(2, vec![0, 700, 900, 0]), vec![entry("ab", 1, 1, 32000, 0, "ab")]);
    let user = system(flat_grammar(), vec![entry("ab", 0, 0, COST_TO_CALCULATE, 0, "ab-user")]);
    let oov = OovProviderPlugin { left_id: 1, right_id: 1, cost: 30000, pos_id: 0 };
    let d = Dictionary::new(sys, vec![], vec![oov], vec![user], CharacterCategory::new()).unwrap();
    assert_eq!(d.lexicon_set.lexicons[1].entries[0].cost, i16::MAX);
}

#[test]
fn calibration_fails_without_coverage() {
    let sys = system(flat_grammar(), vec![entry("a", 0, 0, 10, 0, "a")]);
    let user = system(flat_grammar(), vec![entry("ab", 0, 0, COST_TO_CALCULATE, 0, "ab")]);
    match Dictionary::new(sys, vec![], vec![], vec![user], CharacterCategory::new()) {
        Err(DictionaryErr::CostCalculationErr(TokenizeErr::UncoveredOffset(1))) => {}
        Err(e) => panic!("wrong error {:?}", e),
        Ok(_) => panic!("expected a failed cost calculation"),
    }
}

#[test]
fn character_categories_combine_ranges() {
    let mut cc = CharacterCategory::new();
    cc.ranges.push(CategoryRange { low: 0x3041, high: 0x309F, categories: 0b100 });
    cc.ranges.push(CategoryRange { low: 0x30FC, high: 0x30FC, categories: 0b1000 });
    cc.ranges.push(CategoryRange { low: 0x3090, high: 0x30FF, categories: 0b10000 });
    assert_eq!(cc.get_category_types('あ'), 0b100);
    assert_eq!(cc.get_category_types('ー'), 0b11000);
    assert_eq!(cc.get_category_types('ゐ'), 0b10100);
    assert_eq!(cc.get_category_types('a'), DEFAULT_CATEGORY);
    let mut g = flat_grammar();
    g.set_character_category(Some(cc));
    assert!(g.character_category.is_some());
}
