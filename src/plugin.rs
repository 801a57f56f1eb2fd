use vstd::prelude::*;

use crate::grammar::Grammar;
use crate::input_text::{chars_of, InputText};

verus! {

/// A step of input normalization: rewrites the normalized text of an input
/// and keeps its offset map consistent.
pub trait InputTextPlugin: Sized {
    /// The normalized text after this step, given the text before it.
    spec fn rewrite_spec(&self, text: Seq<char>) -> Seq<char>;

    /// The plugin's settings are usable.
    spec fn is_set_up(&self) -> bool;

    /// Checks the settings; changes nothing.
    fn setup(&mut self) -> (r: Result<(), InputTextPluginSetupErr>)
        ensures
            r is Ok <==> old(self).is_set_up(),
            *final(self) == *old(self),
    ;

    fn rewrite(&self, text: &mut InputText) -> (r: Result<(), InputTextPluginReplaceErr>)
        requires
            self.is_set_up(),
            old(text).wf(),
        ensures
            final(text).wf(),
            final(text).original@ == old(text).original@,
            r is Ok ==> final(text).modified@ == self.rewrite_spec(old(text).modified@),
    ;
}

/// The kinds of plugin descriptor that cannot be turned into a plugin.
#[derive(Debug)]
pub enum InputTextPluginGetErr {
    /// The descriptor names a class that does not exist.
    InvalidClassErr(String),
    /// The descriptor is not an object with the fields its class needs.
    InvalidFormatErr,
}

/// The settings of a plugin are unusable.
#[derive(Debug)]
pub enum InputTextPluginSetupErr {
    /// The character table maps from and to lists of different lengths.
    InvalidDefinitionErr,
}

/// A rewrite could not be applied to the text.
#[derive(Debug)]
pub enum InputTextPluginReplaceErr {
    /// The span to replace lies outside the text.
    ReplaceErr,
}

/// Replaces each character found in `from` by the character at the same
/// position of `to`; the first occurrence in `from` decides.
pub struct CharMapPlugin {
    pub from: Vec<char>,
    pub to: Vec<char>,
}

/// Index of the first occurrence of `c` in `from`, if any.
pub open spec fn first_index(from: Seq<char>, c: char) -> int
    decreases from.len(),
{
    if from.len() == 0 {
        -1
    } else if from.last() == c && first_index(from.drop_last(), c) < 0 {
        from.len() - 1
    } else {
        first_index(from.drop_last(), c)
    }
}

pub open spec fn map_char(from: Seq<char>, to: Seq<char>, c: char) -> char {
    let k = first_index(from, c);
    if 0 <= k { to[k] } else { c }
}

proof fn lemma_first_index(from: Seq<char>, c: char, k: int)
    requires
        0 <= k <= from.len(),
        forall|j: int| 0 <= j < k ==> from[j] != c,
    ensures
        k < from.len() && from[k] == c ==> first_index(from, c) == k,
        k == from.len() ==> first_index(from, c) == -1,
    decreases from.len(),
{
    if from.len() > 0 {
        let p = from.drop_last();
        if k < from.len() {
            lemma_first_index(p, c, k);
        } else {
            lemma_first_index(p, c, p.len() as int);
        }
        if k < from.len() && from[k] == c && k < p.len() {
            assert(p[k] == c);
        }
    }
}

impl CharMapPlugin {
    /// Rewrites every normalized character of `text`; never fails.
    pub fn apply(&self, text: &mut InputText)
        requires
            self.from@.len() == self.to@.len(),
            old(text).wf(),
        ensures
            final(text).wf(),
            final(text).original@ == old(text).original@,
            final(text).offsets@ == old(text).offsets@,
            final(text).modified@ == self.rewrite_spec(old(text).modified@),
    {
        let ghost before = text.modified@;
        let mut i: usize = 0;
        while i < text.modified.len()
            invariant
                self.from@.len() == self.to@.len(),
                text.wf(),
                text.original@ == old(text).original@,
                text.offsets@ == old(text).offsets@,
                before == old(text).modified@,
                text.modified@.len() == before.len(),
                i <= before.len(),
                forall|k: int| 0 <= k < i ==> text.modified@[k] == map_char(self.from@, self.to@, before[k]),
                forall|k: int| i <= k < before.len() ==> text.modified@[k] == before[k],
            decreases before.len() - i,
        {
            let c = self.map(text.modified[i]);
            text.set_char(i, c);
            i += 1;
        }
        assert(text.modified@ =~= self.rewrite_spec(before));
    }

    pub fn map(&self, c: char) -> (r: char)
        requires
            self.from@.len() == self.to@.len(),
        ensures
            r == map_char(self.from@, self.to@, c),
    {
        let mut k: usize = 0;
        while k < self.from.len()
            invariant
                k <= self.from@.len(),
                self.from@.len() == self.to@.len(),
                forall|j: int| 0 <= j < k ==> self.from@[j] != c,
            decreases self.from@.len() - k,
        {
            if self.from[k] == c {
                proof {
                    lemma_first_index(self.from@, c, k as int);
                }
                return self.to[k];
            }
            k += 1;
        }
        proof {
            lemma_first_index(self.from@, c, k as int);
        }
        c
    }
}

impl InputTextPlugin for CharMapPlugin {
    open spec fn rewrite_spec(&self, text: Seq<char>) -> Seq<char> {
        text.map_values(|c: char| map_char(self.from@, self.to@, c))
    }

    open spec fn is_set_up(&self) -> bool {
        self.from@.len() == self.to@.len()
    }

    fn setup(&mut self) -> (r: Result<(), InputTextPluginSetupErr>) {
        if self.from.len() == self.to.len() {
            Ok(())
        } else {
            Err(InputTextPluginSetupErr::InvalidDefinitionErr)
        }
    }

    fn rewrite(&self, text: &mut InputText) -> (r: Result<(), InputTextPluginReplaceErr>) {
        self.apply(text);
        Ok(())
    }
}

/// Makes one out-of-vocabulary node of one character, with fixed connection
/// ids, cost and part of speech, wherever no dictionary word starts.
pub struct OovProviderPlugin {
    pub left_id: u16,
    pub right_id: u16,
    pub cost: i16,
    pub pos_id: i16,
}

impl OovProviderPlugin {
    /// Its ids index the connection matrix and the part-of-speech table.
    pub open spec fn wf(&self, g: &Grammar) -> bool {
        &&& (self.left_id as int) < g.right_size
        &&& (self.right_id as int) < g.left_size
        &&& 0 <= self.pos_id < g.pos_list@.len()
    }

    /// Checks the plugin against the grammar it will be used with.
    pub fn setup(&self, g: &Grammar) -> (r: bool)
        ensures
            r == self.wf(g),
    {
        (self.left_id as usize) < g.right_size && (self.right_id as usize) < g.left_size && 0 <= self.pos_id
            && (self.pos_id as usize) < g.pos_list.len()
    }
}

/// The fields of one plugin descriptor of the settings, each present when
/// it holds a string.
pub struct PluginDescriptor {
    pub class: Option<String>,
    pub from: Option<String>,
    pub to: Option<String>,
}

/// The `inputTextPlugin` entry of the settings.
pub enum PluginSettings {
    /// The settings have no such entry.
    Missing,
    /// The entry is not a list.
    NotAList,
    /// The descriptors of the list, in order.
    List(Vec<PluginDescriptor>),
}

/// Class name of the character-table input text plugin.
pub open spec fn char_map_class() -> Seq<char> {
    "CharMapInputTextPlugin"@
}

/// The plugin that a descriptor with these `class`, `from` and `to` fields
/// stands for.
pub fn plugin_from_fields(class: Option<String>, from: Option<String>, to: Option<String>) -> (r: Result<
    CharMapPlugin,
    InputTextPluginGetErr,
>)
    ensures
        class is None ==> r matches Err(InputTextPluginGetErr::InvalidFormatErr),
        class is Some && class->0@ != char_map_class() ==> (r matches Err(
            InputTextPluginGetErr::InvalidClassErr(n),
        ) && n@ == class->0@),
        class is Some && class->0@ == char_map_class() && (from is None || to is None) ==> r matches Err(
            InputTextPluginGetErr::InvalidFormatErr,
        ),
        class is Some && class->0@ == char_map_class() && from is Some && to is Some ==> r is Ok && r->Ok_0.from@
            == from->0@ && r->Ok_0.to@ == to->0@,
{
    let class = match class {
        Some(c) => c,
        None => {
            return Err(InputTextPluginGetErr::InvalidFormatErr);
        },
    };
    let name = "CharMapInputTextPlugin".to_string();
    proof {
        reveal_strlit("CharMapInputTextPlugin");
    }
    if class != name {
        return Err(InputTextPluginGetErr::InvalidClassErr(class));
    }
    match (from, to) {
        (Some(f), Some(t)) => Ok(CharMapPlugin { from: chars_of(f.as_str()), to: chars_of(t.as_str()) }),
        _ => Err(InputTextPluginGetErr::InvalidFormatErr),
    }
}

/// What `plugin_from_fields` gives for the fields of `d`.
pub open spec fn descriptor_result(d: PluginDescriptor, r: Result<CharMapPlugin, InputTextPluginGetErr>) -> bool {
    &&& (d.class is None ==> r matches Err(InputTextPluginGetErr::InvalidFormatErr))
    &&& (d.class is Some && d.class->0@ != char_map_class() ==> (r matches Err(
        InputTextPluginGetErr::InvalidClassErr(n),
    ) && n@ == d.class->0@))
    &&& (d.class is Some && d.class->0@ == char_map_class() && (d.from is None || d.to is None) ==> r matches Err(
        InputTextPluginGetErr::InvalidFormatErr,
    ))
    &&& (d.class is Some && d.class->0@ == char_map_class() && d.from is Some && d.to is Some ==> r is Ok
        && r->Ok_0.from@ == d.from->0@ && r->Ok_0.to@ == d.to->0@)
}

/// The descriptor names the character-table plugin and gives both tables.
pub open spec fn descriptor_ok(d: PluginDescriptor) -> bool {
    d.class is Some && d.class->0@ == char_map_class() && d.from is Some && d.to is Some
}

/// The plugin that a descriptor such as
/// `{"class": "CharMapInputTextPlugin", "from": "ＡＢ", "to": "AB"}` stands for.
pub fn get_input_text_plugin(d: &PluginDescriptor) -> (r: Result<CharMapPlugin, InputTextPluginGetErr>)
    ensures
        descriptor_result(*d, r),
{
    plugin_from_fields(d.class.clone(), d.from.clone(), d.to.clone())
}

/// The plugins of the settings, one per descriptor and in their order; none
/// when the settings have no list; otherwise the error of the first
/// descriptor that fails.
pub fn get_input_text_plugins(settings: &PluginSettings) -> (r: Result<Vec<CharMapPlugin>, InputTextPluginGetErr>)
    ensures
        settings is Missing ==> r is Ok && r->Ok_0@.len() == 0,
        settings is NotAList ==> r matches Err(InputTextPluginGetErr::InvalidFormatErr),
        settings matches PluginSettings::List(ds) ==> {
            &&& r is Ok ==> r->Ok_0@.len() == ds@.len() && forall|i: int| 0 <= i < ds@.len()
                ==> (#[trigger] r->Ok_0@[i]).from@ == ds@[i].from->0@ && r->Ok_0@[i].to@ == ds@[i].to->0@
                && descriptor_ok(ds@[i])
            &&& r is Err ==> exists|i: int| 0 <= i < ds@.len() && !descriptor_ok(#[trigger] ds@[i])
                && (forall|j: int| 0 <= j < i ==> descriptor_ok(#[trigger] ds@[j]))
                && descriptor_result(ds@[i], Err(r->Err_0))
            &&& (forall|i: int| 0 <= i < ds@.len() ==> descriptor_ok(#[trigger] ds@[i])) ==> r is Ok
        },
{
    match settings {
        PluginSettings::Missing => Ok(Vec::new()),
        PluginSettings::NotAList => Err(InputTextPluginGetErr::InvalidFormatErr),
        PluginSettings::List(ds) => {
            let mut plugins: Vec<CharMapPlugin> = Vec::new();
            let mut i: usize = 0;
            while i < ds.len()
                invariant
                    *settings == PluginSettings::List(*ds),
                    i <= ds@.len(),
                    plugins@.len() == i,
                    forall|k: int| 0 <= k < i ==> (#[trigger] plugins@[k]).from@ == ds@[k].from->0@
                        && plugins@[k].to@ == ds@[k].to->0@ && descriptor_ok(ds@[k]),
                    forall|k: int| 0 <= k < i ==> descriptor_ok(#[trigger] ds@[k]),
                decreases ds@.len() - i,
            {
                match get_input_text_plugin(&ds[i]) {
                    Ok(p) => {
                        assert(descriptor_ok(ds@[i as int]));
                        plugins.push(p);
                    },
                    Err(e) => {
                        assert(!descriptor_ok(ds@[i as int]));
                        assert(descriptor_result(ds@[i as int], Err(e)));
                        assert(forall|j: int| 0 <= j < i ==> descriptor_ok(#[trigger] ds@[j]));
                        assert(exists|k: int| 0 <= k < ds@.len() && !descriptor_ok(#[trigger] ds@[k])
                            && (forall|j: int| 0 <= j < k ==> descriptor_ok(#[trigger] ds@[j]))
                            && descriptor_result(ds@[k], Err(e))) by {
                            assert(!descriptor_ok(ds@[i as int]));
                        }
                        return Err(e);
                    },
                }
                i += 1;
            }
            Ok(plugins)
        },
    }
}

} // verus!
