use vstd::prelude::*;
use vstd::string::StringExecFns;

use crate::signal_canvas::{
    considered, lemma_trailing_flush, lookup,
    commands, edges_upto, expected_rows, generate_signal_commands, path_occurs, pixels_view,
    signal_commands_spec, translation_fails, DrawingCommands, PathView, SampleTime, SignalChange,
};
use crate::translation::{is_bool_like, subinfo, SignalMeta, TranslationPreference};
use crate::translators::{
    info_of, preference, translation, translator_name, BitTranslator, ClockTranslator, NumericTranslator, Translator,
};
use crate::wave_container::{strings_eq, strings_view, FieldRef, VarName};

verus! {

/// Which way to move the focus or an item in the list of displayed items.
#[derive(Clone, Copy, Debug, PartialEq, Eq, Structural)]
pub enum MoveDir {
    Up,
    Down,
}

/// A color picked by its index in the theme or by its name.
#[derive(Clone, Debug)]
pub enum ColorSpecifier {
    Index(usize),
    Name(String),
}

/// Whether a new trace replaces the displayed items or keeps those still present.
#[derive(Clone, Copy, Debug, PartialEq, Eq, Structural)]
pub enum OpenMode {
    Open,
    Switch,
}

/// The registered translators, in order of registration, and the name of the
/// one to use where none prefers a signal.
#[derive(Clone, Debug)]
pub struct TranslatorList {
    pub translators: Vec<Translator>,
    pub default: String,
}

/// The first translator called `name`.
pub open spec fn first_named(ts: Seq<Translator>, name: Seq<char>) -> Option<int>
    decreases ts.len(),
{
    if ts.len() == 0 {
        None
    } else if translator_name(ts[0]) == name {
        Some(0)
    } else {
        match first_named(ts.drop_first(), name) {
            Some(i) => Some(i + 1),
            None => None,
        }
    }
}

/// The first translator that prefers a variable.
pub open spec fn first_preferred(ts: Seq<Translator>, meta: SignalMeta) -> Option<int>
    decreases ts.len(),
{
    if ts.len() == 0 {
        None
    } else if preference(ts[0], meta) == TranslationPreference::Prefer {
        Some(0)
    } else {
        match first_preferred(ts.drop_first(), meta) {
            Some(i) => Some(i + 1),
            None => None,
        }
    }
}

/// The name of the translator that a variable gets by default: the first
/// registered one that prefers it, else the list's default.
pub open spec fn preferred_name(list: TranslatorList, meta: SignalMeta) -> Seq<char> {
    match first_preferred(list.translators@, meta) {
        Some(i) => translator_name(list.translators@[i]),
        None => list.default@,
    }
}

/// The translators a waveform viewer offers: the numeric bases, a single bit and
/// a clock; hexadecimal unless a translator prefers the signal.
pub fn all_translators() -> (r: TranslatorList)
    ensures
        r.translators@ == seq![
            Translator::Numeric(NumericTranslator::Hexadecimal),
            Translator::Numeric(NumericTranslator::Octal),
            Translator::Numeric(NumericTranslator::Unsigned),
            Translator::Numeric(NumericTranslator::Binary),
            Translator::Bit(BitTranslator {  }),
            Translator::Clock(ClockTranslator::spec_new()),
        ],
        r.default@ == translator_name(Translator::Numeric(NumericTranslator::Hexadecimal)),
{
    let mut translators: Vec<Translator> = Vec::new();
    translators.push(Translator::Numeric(NumericTranslator::Hexadecimal));
    translators.push(Translator::Numeric(NumericTranslator::Octal));
    translators.push(Translator::Numeric(NumericTranslator::Unsigned));
    translators.push(Translator::Numeric(NumericTranslator::Binary));
    translators.push(Translator::Bit(BitTranslator {  }));
    translators.push(Translator::Clock(ClockTranslator::new()));
    let default = Translator::Numeric(NumericTranslator::Hexadecimal).name();
    TranslatorList { translators, default }
}

impl TranslatorList {
    pub fn all_translators(&self) -> (r: &Vec<Translator>)
        ensures
            r@ == self.translators@,
    {
        &self.translators
    }

    /// The first registered translator called `name`.
    pub fn get_translator(&self, name: &String) -> (r: Option<Translator>)
        ensures
            match first_named(self.translators@, name@) {
                Some(i) => r == Some(self.translators@[i]),
                None => r.is_none(),
            },
    {
        let mut i: usize = 0;
        assert(self.translators@.subrange(0, self.translators@.len() as int) =~= self.translators@);
        while i < self.translators.len()
            invariant
                i <= self.translators.len(),
                first_named(self.translators@, name@) == match first_named(
                    self.translators@.subrange(i as int, self.translators@.len() as int),
                    name@,
                ) {
                    Some(k) => Some(k + i),
                    None => None,
                },
            decreases self.translators.len() - i,
        {
            let ghost rest = self.translators@.subrange(i as int, self.translators@.len() as int);
            assert(rest.drop_first() =~= self.translators@.subrange(
                i + 1,
                self.translators@.len() as int,
            ));
            let n = self.translators[i].name();
            if n == *name {
                assert(first_named(rest, name@) == Some(0int));
                return Some(self.translators[i]);
            }
            i += 1;
        }
        None
    }

    /// Whether a translator called `name` is registered and handles the variable.
    pub fn is_valid_translator(&self, meta: &SignalMeta, name: &String) -> (r: bool)
        ensures
            r == match first_named(self.translators@, name@) {
                Some(i) => preference(self.translators@[i], *meta) != TranslationPreference::No,
                None => false,
            },
    {
        match self.get_translator(name) {
            Some(t) => t.translates(meta) != TranslationPreference::No,
            None => false,
        }
    }
}

/// The name of the translator that a variable gets unless the user chose one:
/// the first registered translator that prefers it, else the default.
pub fn select_preferred_translator(meta: &SignalMeta, translators: &TranslatorList) -> (r: String)
    ensures
        r@ == preferred_name(*translators, *meta),
{
    let ts = &translators.translators;
    let mut i: usize = 0;
    assert(ts@.subrange(0, ts@.len() as int) =~= ts@);
    while i < ts.len()
        invariant
            i <= ts.len(),
            ts@ == translators.translators@,
            first_preferred(ts@, *meta) == match first_preferred(
                ts@.subrange(i as int, ts@.len() as int),
                *meta,
            ) {
                Some(k) => Some(k + i),
                None => None,
            },
        decreases ts.len() - i,
    {
        let ghost rest = ts@.subrange(i as int, ts@.len() as int);
        assert(rest.drop_first() =~= ts@.subrange(i + 1, ts@.len() as int));
        if ts[i].translates(meta) == TranslationPreference::Prefer {
            assert(rest[0] == ts@[i as int]);
            assert(first_preferred(rest, *meta) == Some(0int));
            assert(first_preferred(ts@, *meta) == Some(i as int));
            let r = ts[i].name();
            assert(r@ == translator_name(ts@[i as int]));
            return r;
        }
        i += 1;
    }
    assert(ts@.subrange(i as int, ts@.len() as int) =~= Seq::<Translator>::empty());
    translators.default.clone()
}


/// A field reference as the scopes and name of its root and its field path.
pub type FieldKey = (Seq<Seq<char>>, Seq<char>, Seq<Seq<char>>);

pub open spec fn field_key(f: FieldRef) -> FieldKey {
    (f.root.path@, f.root.name@, f.field_view())
}

/// The translator chosen for a field: the first entry for its key.
pub open spec fn format_of(e: Seq<(FieldKey, Seq<char>)>, k: FieldKey) -> Option<Seq<char>>
    decreases e.len(),
{
    if e.len() == 0 {
        None
    } else if e[0].0 == k {
        Some(e[0].1)
    } else {
        format_of(e.drop_first(), k)
    }
}

pub open spec fn formats_view(e: Seq<(FieldRef, String)>) -> Seq<(FieldKey, Seq<char>)> {
    e.map_values(|x: (FieldRef, String)| (field_key(x.0), x.1@))
}

fn clone_field_ref(f: &FieldRef) -> (r: FieldRef)
    ensures
        field_key(r) == field_key(*f),
{
    let path = f.root.path.0.clone();
    assert(strings_view(path@) =~= strings_view(f.root.path.0@)) by {
        assert(forall|k: int| 0 <= k < path@.len() ==> path@[k] == f.root.path.0@[k]);
    }
    let field = f.field.clone();
    assert(strings_view(field@) =~= strings_view(f.field@)) by {
        assert(forall|k: int| 0 <= k < field@.len() ==> field@[k] == f.field@[k]);
    }
    FieldRef {
        root: VarName::new(crate::wave_container::ScopeName(path), f.root.name.clone()),
        field,
    }
}

/// Whether two field references name the same field.
fn same_field(a: &FieldRef, b: &FieldRef) -> (r: bool)
    ensures
        r == (field_key(*a) == field_key(*b)),
{
    a.root.name == b.root.name && strings_eq(&a.root.path.0, &b.root.path.0) && strings_eq(
        &a.field,
        &b.field,
    )
}

proof fn lemma_format_of_suffix(e: Seq<(FieldKey, Seq<char>)>, i: int, k: FieldKey)
    requires
        0 <= i < e.len(),
        e[i].0 != k,
    ensures
        format_of(e.subrange(i, e.len() as int), k) == format_of(e.subrange(i + 1, e.len() as int), k),
{
    let t = e.subrange(i, e.len() as int);
    assert(t.drop_first() =~= e.subrange(i + 1, e.len() as int));
}

proof fn lemma_format_of_update(e: Seq<(FieldKey, Seq<char>)>, i: int, v: Seq<char>, k: FieldKey)
    requires
        0 <= i < e.len(),
        forall|j: int| 0 <= j < i ==> e[j].0 != e[i].0,
    ensures
        format_of(e.update(i, (e[i].0, v)), k) == if k == e[i].0 {
            Some(v)
        } else {
            format_of(e, k)
        },
    decreases i,
{
    let u = e.update(i, (e[i].0, v));
    if i > 0 {
        assert(u[0] == e[0]);
        assert(e[0].0 != e[i].0);
        assert(u.drop_first() =~= e.drop_first().update(i - 1, (e[i].0, v)));
        assert(e.drop_first()[i - 1] == e[i]);
        lemma_format_of_update(e.drop_first(), i - 1, v, k);
    } else {
        assert(u.drop_first() =~= e.drop_first());
    }
}

proof fn lemma_format_of_push(e: Seq<(FieldKey, Seq<char>)>, x: (FieldKey, Seq<char>), k: FieldKey)
    requires
        format_of(e, x.0).is_none(),
    ensures
        format_of(e.push(x), k) == if k == x.0 {
            Some(x.1)
        } else {
            format_of(e, k)
        },
    decreases e.len(),
{
    if e.len() > 0 {
        assert(e.push(x)[0] == e[0]);
        assert(e.push(x).drop_first() =~= e.drop_first().push(x));
        lemma_format_of_push(e.drop_first(), x, k);
    } else {
        assert(e.push(x)[0] == x);
        assert(e.push(x).drop_first() =~= e);
    }
}

/// Whether no two choices are for the same field.
pub open spec fn unique_keys(e: Seq<(FieldKey, Seq<char>)>) -> bool {
    forall|a: int, b: int| 0 <= a < b < e.len() ==> e[a].0 != e[b].0
}

proof fn lemma_format_of_none(e: Seq<(FieldKey, Seq<char>)>, k: FieldKey, j: int)
    requires
        format_of(e, k).is_none(),
        0 <= j < e.len(),
    ensures
        e[j].0 != k,
    decreases j,
{
    if j > 0 {
        assert(e.drop_first()[j - 1] == e[j]);
        lemma_format_of_none(e.drop_first(), k, j - 1);
    }
}

/// The translators that the user chose for fields, by field.
#[derive(Clone, Debug)]
pub struct SignalFormats {
    pub entries: Vec<(FieldRef, String)>,
}

impl SignalFormats {
    pub open spec fn spec_get(&self, k: FieldKey) -> Option<Seq<char>> {
        format_of(formats_view(self.entries@), k)
    }

    /// Each field has at most one entry.
    pub open spec fn wf(&self) -> bool {
        unique_keys(formats_view(self.entries@))
    }

    pub fn new() -> (r: Self)
        ensures
            forall|k: FieldKey| #[trigger] r.spec_get(k).is_none(),
            r.wf(),
    {
        SignalFormats { entries: Vec::new() }
    }

    /// The index of the first entry for `f`.
    fn position(&self, f: &FieldRef) -> (r: Option<usize>)
        ensures
            match r {
                Some(i) => i < self.entries.len() && formats_view(self.entries@)[i as int].0
                    == field_key(*f) && forall|j: int|
                    0 <= j < i ==> formats_view(self.entries@)[j].0 != field_key(*f),
                None => self.spec_get(field_key(*f)).is_none(),
            },
    {
        let ghost e = formats_view(self.entries@);
        let mut i: usize = 0;
        assert(e.subrange(0, e.len() as int) =~= e);
        while i < self.entries.len()
            invariant
                e == formats_view(self.entries@),
                i <= self.entries.len(),
                forall|j: int| 0 <= j < i ==> e[j].0 != field_key(*f),
                format_of(e, field_key(*f)) == format_of(e.subrange(i as int, e.len() as int), field_key(*f)),
            decreases self.entries.len() - i,
        {
            if same_field(&self.entries[i].0, f) {
                return Some(i);
            }
            proof {
                lemma_format_of_suffix(e, i as int, field_key(*f));
            }
            i += 1;
        }
        None
    }

    /// The translator chosen for `f`, if one was.
    pub fn get(&self, f: &FieldRef) -> (r: Option<String>)
        ensures
            match r {
                Some(s) => self.spec_get(field_key(*f)) == Some(s@),
                None => self.spec_get(field_key(*f)).is_none(),
            },
    {
        match self.position(f) {
            Some(i) => {
                proof {
                    let e = formats_view(self.entries@);
                    lemma_format_of_update(e, i as int, e[i as int].1, field_key(*f));
                    assert(e.update(i as int, (e[i as int].0, e[i as int].1)) =~= e);
                }
                Some(self.entries[i].1.clone())
            },
            None => None,
        }
    }

    /// Chooses translator `name` for field `f`.
    pub fn set(&mut self, f: FieldRef, name: String)
        ensures
            final(self).spec_get(field_key(f)) == Some(name@),
            forall|k: FieldKey| k != field_key(f) ==> final(self).spec_get(k) == old(self).spec_get(k),
            old(self).wf() ==> final(self).wf(),
    {
        let ghost e = formats_view(self.entries@);
        match self.position(&f) {
            Some(i) => {
                let ghost key = field_key(f);
                self.entries.set(i, (f, name));
                proof {
                    assert(formats_view(self.entries@) =~= e.update(i as int, (e[i as int].0, name@)));
                    assert forall|k: FieldKey| #![all_triggers] true implies format_of(
                        formats_view(self.entries@),
                        k,
                    ) == if k == key {
                        Some(name@)
                    } else {
                        format_of(e, k)
                    } by {
                        lemma_format_of_update(e, i as int, name@, k);
                    }
                    assert(forall|j: int| 0 <= j < e.len() ==> #[trigger] formats_view(self.entries@)[j].0 == e[j].0);
                }
            },
            None => {
                let ghost key = field_key(f);
                self.entries.push((f, name));
                proof {
                    assert(formats_view(self.entries@) =~= e.push((key, name@)));
                    assert forall|k: FieldKey| #![all_triggers] true implies format_of(
                        formats_view(self.entries@),
                        k,
                    ) == if k == key {
                        Some(name@)
                    } else {
                        format_of(e, k)
                    } by {
                        lemma_format_of_push(e, (key, name@), k);
                    }
                    assert forall|j: int| 0 <= j < e.len() implies e[j].0 != key by {
                        lemma_format_of_none(e, key, j);
                    }
                }
            },
        }
    }
}


proof fn lemma_format_of_append(e: Seq<(FieldKey, Seq<char>)>, x: (FieldKey, Seq<char>), k: FieldKey)
    ensures
        format_of(e.push(x), k) == match format_of(e, k) {
            Some(v) => Some(v),
            None => if x.0 == k {
                Some(x.1)
            } else {
                None
            },
        },
    decreases e.len(),
{
    if e.len() > 0 {
        assert(e.push(x)[0] == e[0]);
        assert(e.push(x).drop_first() =~= e.drop_first().push(x));
        lemma_format_of_append(e.drop_first(), x, k);
    } else {
        assert(e.push(x)[0] == x);
        assert(e.push(x).drop_first() =~= e);
    }
}

impl SignalFormats {
    /// Forgets the translator chosen for `f`; every other choice stays.
    pub fn reset(&mut self, f: &FieldRef)
        ensures
            final(self).spec_get(field_key(*f)).is_none(),
            forall|k: FieldKey| k != field_key(*f) ==> #[trigger] final(self).spec_get(k) == old(self).spec_get(k),
            old(self).wf() ==> final(self).wf(),
    {
        let ghost e = formats_view(self.entries@);
        let ghost fk = field_key(*f);
        let mut kept: Vec<(FieldRef, String)> = Vec::new();
        let mut i: usize = 0;
        while i < self.entries.len()
            invariant
                e == formats_view(self.entries@),
                fk == field_key(*f),
                i <= self.entries.len(),
                forall|k: FieldKey| #[trigger]
                    format_of(formats_view(kept@), k) == if k == fk {
                        None
                    } else {
                        format_of(e.subrange(0, i as int), k)
                    },
                forall|a: int| 0 <= a < kept@.len() ==> exists|j: int| 0 <= j < i && #[trigger] formats_view(kept@)[a] == e[j],
                unique_keys(e) ==> unique_keys(formats_view(kept@)),
            decreases self.entries.len() - i,
        {
            let entry = &self.entries[i];
            let hit = same_field(&entry.0, f);
            let ghost before = formats_view(kept@);
            let ghost x = e[i as int];
            assert(e.subrange(0, i + 1) =~= e.subrange(0, i as int).push(x));
            assert(hit == (x.0 == fk));
            if !hit {
                kept.push((clone_field_ref(&entry.0), entry.1.clone()));
                assert(formats_view(kept@) =~= before.push(x));
                assert forall|k: FieldKey| #[trigger]
                    format_of(formats_view(kept@), k) == if k == fk {
                        None
                    } else {
                        format_of(e.subrange(0, i + 1), k)
                    } by {
                    lemma_format_of_append(before, x, k);
                    lemma_format_of_append(e.subrange(0, i as int), x, k);
                }
                assert forall|a: int| 0 <= a < kept@.len() implies exists|j: int| 0 <= j < i + 1 && #[trigger] formats_view(kept@)[a] == e[j] by {
                    if a < before.len() {
                        assert(formats_view(kept@)[a] == before[a]);
                    } else {
                        assert(formats_view(kept@)[a] == e[i as int]);
                    }
                }
                proof {
                    if unique_keys(e) {
                        assert forall|a: int, b: int| 0 <= a < b < formats_view(kept@).len() implies formats_view(kept@)[a].0 != formats_view(kept@)[b].0 by {
                            if b == before.len() {
                                assert(formats_view(kept@)[a] == before[a]);
                                let j = choose|j: int| 0 <= j < i && #[trigger] before[a] == e[j];
                            } else {
                                assert(formats_view(kept@)[a] == before[a]);
                                assert(formats_view(kept@)[b] == before[b]);
                            }
                        }
                    }
                }
            } else {
                assert forall|k: FieldKey| #[trigger]
                    format_of(formats_view(kept@), k) == if k == fk {
                        None
                    } else {
                        format_of(e.subrange(0, i + 1), k)
                    } by {
                    lemma_format_of_append(e.subrange(0, i as int), x, k);
                }
            }
            i += 1;
        }
        assert(e.subrange(0, e.len() as int) =~= e);
        self.entries = kept;
    }
}

/// Whether a registered translator called `name` handles a variable of shape `m`.
pub open spec fn handles(list: TranslatorList, m: SignalMeta, name: Seq<char>) -> bool {
    match first_named(list.translators@, name) {
        Some(i) => preference(list.translators@[i], m) != TranslationPreference::No,
        None => false,
    }
}

/// Whether the choice `name` for a field applies: a member field keeps its
/// choice; a root field keeps it only where its shape is known and the chosen
/// translator still handles it.
pub open spec fn choice_applies(
    key: FieldKey,
    name: Seq<char>,
    meta: Option<SignalMeta>,
    list: TranslatorList,
) -> bool {
    key.2.len() > 0 || match meta {
        Some(m) => handles(list, m, name),
        None => false,
    }
}

/// The name of the translator a field gets: `choice`, the one chosen for it,
/// where it applies; else for a root field with a known shape the preferred one;
/// else the default.
pub open spec fn chosen_name(
    key: FieldKey,
    choice: Option<Seq<char>>,
    meta: Option<SignalMeta>,
    list: TranslatorList,
) -> Seq<char> {
    match choice {
        Some(n) if choice_applies(key, n, meta, list) => n,
        _ => if key.2.len() == 0 {
            match meta {
                Some(m) => preferred_name(list, m),
                None => list.default@,
            }
        } else {
            list.default@
        },
    }
}

/// The translator of a field: the first registered one with the chosen name.
pub open spec fn chosen_translator(
    key: FieldKey,
    choice: Option<Seq<char>>,
    meta: Option<SignalMeta>,
    list: TranslatorList,
) -> Option<Translator> {
    match first_named(list.translators@, chosen_name(key, choice, meta, list)) {
        Some(i) => Some(list.translators@[i]),
        None => None,
    }
}

/// The translator that field `field` is drawn with: the one chosen for it where
/// that still handles the variable's shape `meta`, else the preferred one, else
/// the default. `None` where no translator has the name.
pub fn signal_translator(
    field: &FieldRef,
    formats: &SignalFormats,
    meta: Option<SignalMeta>,
    translators: &TranslatorList,
) -> (r: Option<Translator>)
    ensures
        r == chosen_translator(field_key(*field), formats.spec_get(field_key(*field)), meta, *translators),
{
    let is_root = field.field.len() == 0;
    let choice = match formats.get(field) {
        Some(n) => {
            if !is_root {
                Some(n)
            } else {
                match meta {
                    Some(m) => if translators.is_valid_translator(&m, &n) {
                        Some(n)
                    } else {
                        None
                    },
                    None => None,
                }
            }
        },
        None => None,
    };
    let name = match choice {
        Some(n) => n,
        None => {
            if is_root {
                match meta {
                    Some(m) => select_preferred_translator(&m, translators),
                    None => translators.default.clone(),
                }
            } else {
                translators.default.clone()
            }
        },
    };
    translators.get_translator(&name)
}


/// A displayed signal as the generator needs it: its variable, its shape where
/// the trace knows it, and for each sample pixel the latest change of its value
/// at or before that pixel's time.
#[derive(Clone, Debug)]
pub struct SignalInput {
    pub root: VarName,
    pub meta: Option<SignalMeta>,
    pub queries: Vec<Option<SignalChange>>,
}

/// The drawing commands of all displayed signals, keyed by field; the rising
/// clock edges; and the fields whose chosen translator failed and is to be reset.
#[derive(Clone, Debug)]
pub struct DrawData {
    pub draw_commands: Vec<(FieldRef, DrawingCommands)>,
    pub clock_edges: Vec<i64>,
    pub reset_formats: Vec<FieldRef>,
}

pub open spec fn root_key(s: SignalInput) -> FieldKey {
    (s.root.path@, s.root.name@, Seq::<Seq<char>>::empty())
}

pub open spec fn input_translator(s: SignalInput, formats: SignalFormats, list: TranslatorList) -> Option<Translator> {
    chosen_translator(root_key(s), formats.spec_get(root_key(s)), s.meta, list)
}

/// Whether a signal is drawn: its shape is known, it has a translator, a change
/// for every sample, and the translator decodes every sample that is decoded.
pub open spec fn drawn(
    samples: Seq<SampleTime>,
    s: SignalInput,
    formats: SignalFormats,
    list: TranslatorList,
) -> bool {
    &&& s.meta.is_some()
    &&& s.queries@.len() == samples.len()
    &&& input_translator(s, formats, list).is_some()
    &&& !translation_fails(
        input_translator(s, formats, list).unwrap(),
        s.meta.unwrap(),
        samples,
        s.queries@,
    )
}

/// Whether a signal's translator is to be reset: no translator has the chosen
/// name, or the chosen one refuses a sample.
pub open spec fn needs_reset(
    samples: Seq<SampleTime>,
    s: SignalInput,
    formats: SignalFormats,
    list: TranslatorList,
) -> bool {
    &&& s.meta.is_some()
    &&& s.queries@.len() == samples.len()
    &&& !drawn(samples, s, formats, list)
}

pub open spec fn input_rows(
    samples: Seq<SampleTime>,
    s: SignalInput,
    formats: SignalFormats,
    list: TranslatorList,
) -> Seq<crate::signal_canvas::RowView> {
    expected_rows(input_translator(s, formats, list).unwrap(), s.meta.unwrap(), samples, s.queries@)
}

/// The root fields to reset, of the first `n` signals, in order.
pub open spec fn resets_upto(
    samples: Seq<SampleTime>,
    sigs: Seq<SignalInput>,
    formats: SignalFormats,
    list: TranslatorList,
    n: int,
) -> Seq<FieldKey>
    decreases n,
{
    if n <= 0 {
        Seq::empty()
    } else if needs_reset(samples, sigs[n - 1], formats, list) {
        resets_upto(samples, sigs, formats, list, n - 1).push(root_key(sigs[n - 1]))
    } else {
        resets_upto(samples, sigs, formats, list, n - 1)
    }
}

/// The clock edges of the first `n` signals, signal after signal.
pub open spec fn signal_edges_upto(
    samples: Seq<SampleTime>,
    sigs: Seq<SignalInput>,
    formats: SignalFormats,
    list: TranslatorList,
    n: int,
) -> Seq<int>
    decreases n,
{
    if n <= 0 {
        Seq::empty()
    } else if drawn(samples, sigs[n - 1], formats, list) {
        let rows = input_rows(samples, sigs[n - 1], formats, list);
        signal_edges_upto(samples, sigs, formats, list, n - 1) + edges_upto(
            rows,
            info_of(input_translator(sigs[n - 1], formats, list).unwrap()),
            rows.len() as int,
        )
    } else {
        signal_edges_upto(samples, sigs, formats, list, n - 1)
    }
}

/// Whether `c` holds the drawing commands of field path `p` of drawn signal `s`.
pub open spec fn commands_of_field(
    samples: Seq<SampleTime>,
    s: SignalInput,
    formats: SignalFormats,
    list: TranslatorList,
    p: PathView,
    c: DrawingCommands,
) -> bool {
    let rows = input_rows(samples, s, formats, list);
    &&& path_occurs(rows, p)
    &&& c.entries() == commands(rows, p)
    &&& c.is_bool == is_bool_like(subinfo(info_of(input_translator(s, formats, list).unwrap()), p))
}

fn clone_var(v: &VarName) -> (r: VarName)
    ensures
        r.path@ == v.path@,
        r.name@ == v.name@,
{
    let path = v.path.0.clone();
    assert(strings_view(path@) =~= strings_view(v.path.0@)) by {
        assert(forall|k: int| 0 <= k < path@.len() ==> path@[k] == v.path.0@[k]);
    }
    VarName::new(crate::wave_container::ScopeName(path), v.name.clone())
}

/// Moves the commands of one signal's fields into `out`, each keyed by the
/// signal's variable and the field's path.
fn append_fields(
    out: &mut Vec<(FieldRef, DrawingCommands)>,
    root: &VarName,
    fields: Vec<(Vec<String>, DrawingCommands)>,
)
    ensures
        final(out)@.len() == old(out)@.len() + fields@.len(),
        forall|j: int| 0 <= j < old(out)@.len() ==> final(out)@[j] == old(out)@[j],
        forall|j: int|
            0 <= j < fields@.len() ==> {
                let e = #[trigger] final(out)@[old(out)@.len() + j];
                let g = fields@[fields@.len() - 1 - j];
                &&& field_key(e.0) == (root.path@, root.name@, strings_view(g.0@))
                &&& e.1 == g.1
            },
{
    let ghost orig = fields@;
    let ghost start = out@.len();
    let mut fields = fields;
    while fields.len() > 0
        invariant
            fields@.len() <= orig.len(),
            forall|k: int| 0 <= k < fields@.len() ==> fields@[k] == orig[k],
            out@.len() == start + orig.len() - fields@.len(),
            start == old(out)@.len(),
            forall|j: int| 0 <= j < start ==> out@[j] == old(out)@[j],
            forall|j: int|
                0 <= j < orig.len() - fields@.len() ==> {
                    let e = #[trigger] out@[start + j];
                    let g = orig[orig.len() - 1 - j];
                    &&& field_key(e.0) == (root.path@, root.name@, strings_view(g.0@))
                    &&& e.1 == g.1
                },
        decreases fields@.len(),
    {
        let ghost len = fields@.len();
        let (path, cmds) = fields.pop().unwrap();
        assert((path, cmds) == orig[len - 1]);
        let fr = FieldRef { root: clone_var(root), field: path };
        out.push((fr, cmds));
    }
}

/// Whether two inputs are for the same variable.
pub open spec fn same_var(a: VarName, b: VarName) -> bool {
    a.path@ == b.path@ && a.name@ == b.name@
}

/// Whether signal `s` is drawn and no drawn signal before it is for the same
/// variable: the one whose commands a variable shown twice gets.
pub open spec fn first_drawn(
    samples: Seq<SampleTime>,
    sigs: Seq<SignalInput>,
    formats: SignalFormats,
    list: TranslatorList,
    s: int,
) -> bool {
    &&& drawn(samples, sigs[s], formats, list)
    &&& forall|t: int|
        0 <= t < s ==> !(drawn(samples, sigs[t], formats, list) && #[trigger] same_var(
            sigs[t].root,
            sigs[s].root,
        ))
}

/// Whether no two entries of `out` are for the same field.
pub open spec fn draw_keys_unique(out: Seq<(FieldRef, DrawingCommands)>) -> bool {
    forall|a: int, b: int| 0 <= a < b < out.len() ==> field_key(out[a].0) != field_key(out[b].0)
}

/// Whether `e` is the commands of a field of drawn signal `s`, keyed by its
/// variable and the field's path.
pub open spec fn entry_of_signal(
    samples: Seq<SampleTime>,
    s: SignalInput,
    formats: SignalFormats,
    list: TranslatorList,
    e: (FieldRef, DrawingCommands),
) -> bool {
    &&& drawn(samples, s, formats, list)
    &&& e.0.root.path@ == s.root.path@
    &&& e.0.root.name@ == s.root.name@
    &&& commands_of_field(samples, s, formats, list, e.0.field_view(), e.1)
}

/// Whether some entry of `out` is keyed by `key`.
pub open spec fn key_listed(out: Seq<(FieldRef, DrawingCommands)>, key: FieldKey) -> bool {
    exists|k: int| 0 <= k < out.len() && field_key(#[trigger] out[k].0) == key
}

/// Whether every entry of `out` is the commands of a field of one of the
/// first `n` signals, the first drawn one for its variable.
pub open spec fn entries_from(
    samples: Seq<SampleTime>,
    sigs: Seq<SignalInput>,
    formats: SignalFormats,
    list: TranslatorList,
    out: Seq<(FieldRef, DrawingCommands)>,
    n: int,
) -> bool {
    forall|k: int| 0 <= k < out.len() ==> #[trigger] entry_from_some(samples, sigs, formats, list, out[k], n)
}

/// Whether `e` is the commands of a field of one of the first `n` signals, the
/// first drawn one for its variable.
pub open spec fn entry_from_some(
    samples: Seq<SampleTime>,
    sigs: Seq<SignalInput>,
    formats: SignalFormats,
    list: TranslatorList,
    e: (FieldRef, DrawingCommands),
    n: int,
) -> bool {
    exists|s: int|
        0 <= s < n && first_drawn(samples, sigs, formats, list, s) && #[trigger] entry_of_signal(
            samples,
            sigs[s],
            formats,
            list,
            e,
        )
}

/// Whether `out` has an entry for every field of each signal among the first `n`
/// that is the first drawn one for its variable.
pub open spec fn covers(
    samples: Seq<SampleTime>,
    sigs: Seq<SignalInput>,
    formats: SignalFormats,
    list: TranslatorList,
    out: Seq<(FieldRef, DrawingCommands)>,
    n: int,
) -> bool {
    forall|s: int, p: PathView|
        0 <= s < n && first_drawn(samples, sigs, formats, list, s) && path_occurs(
            input_rows(samples, sigs[s], formats, list),
            p,
        ) ==> key_listed(out, (sigs[s].root.path@, sigs[s].root.name@, p))
}

proof fn lemma_entries_extend(
    samples: Seq<SampleTime>,
    sigs: Seq<SignalInput>,
    formats: SignalFormats,
    list: TranslatorList,
    before: Seq<(FieldRef, DrawingCommands)>,
    after: Seq<(FieldRef, DrawingCommands)>,
    n: int,
)
    requires
        0 <= n < sigs.len(),
        entries_from(samples, sigs, formats, list, before, n),
        before.len() <= after.len(),
        forall|k: int| 0 <= k < before.len() ==> after[k] == before[k],
        forall|k: int|
            before.len() <= k < after.len() ==> entry_of_signal(
                samples,
                sigs[n],
                formats,
                list,
                #[trigger] after[k],
            ),
        before.len() < after.len() ==> first_drawn(samples, sigs, formats, list, n),
    ensures
        entries_from(samples, sigs, formats, list, after, n + 1),
{
    assert forall|k: int| 0 <= k < after.len() implies #[trigger] entry_from_some(
        samples,
        sigs,
        formats,
        list,
        after[k],
        n + 1,
    ) by {
        if k < before.len() {
            assert(after[k] == before[k]);
            assert(entry_from_some(samples, sigs, formats, list, before[k], n));
            let s = choose|s: int|
                0 <= s < n && first_drawn(samples, sigs, formats, list, s) && #[trigger] entry_of_signal(
                    samples,
                    sigs[s],
                    formats,
                    list,
                    before[k],
                );
            assert(entry_of_signal(samples, sigs[s], formats, list, after[k]));
        } else {
            assert(entry_of_signal(samples, sigs[n], formats, list, after[k]));
        }
    }
}

proof fn lemma_covers_extend(
    samples: Seq<SampleTime>,
    sigs: Seq<SignalInput>,
    formats: SignalFormats,
    list: TranslatorList,
    before: Seq<(FieldRef, DrawingCommands)>,
    after: Seq<(FieldRef, DrawingCommands)>,
    n: int,
)
    requires
        0 <= n < sigs.len(),
        covers(samples, sigs, formats, list, before, n),
        before.len() <= after.len(),
        forall|k: int| 0 <= k < before.len() ==> after[k] == before[k],
        forall|p: PathView|
            first_drawn(samples, sigs, formats, list, n) && path_occurs(
                input_rows(samples, sigs[n], formats, list),
                p,
            ) ==> key_listed(after, (sigs[n].root.path@, sigs[n].root.name@, p)),
    ensures
        covers(samples, sigs, formats, list, after, n + 1),
{
    assert forall|s: int, p: PathView|
        0 <= s < n + 1 && first_drawn(samples, sigs, formats, list, s) && path_occurs(
            input_rows(samples, sigs[s], formats, list),
            p,
        ) implies key_listed(after, (sigs[s].root.path@, sigs[s].root.name@, p)) by {
        if s < n {
            let key = (sigs[s].root.path@, sigs[s].root.name@, p);
            assert(key_listed(before, key));
            let k = choose|k: int| 0 <= k < before.len() && field_key(#[trigger] before[k].0) == key;
            assert(after[k] == before[k]);
        }
    }
}

proof fn lemma_keys_unique_extend(
    samples: Seq<SampleTime>,
    sigs: Seq<SignalInput>,
    formats: SignalFormats,
    list: TranslatorList,
    before: Seq<(FieldRef, DrawingCommands)>,
    after: Seq<(FieldRef, DrawingCommands)>,
    n: int,
)
    requires
        0 <= n < sigs.len(),
        draw_keys_unique(before),
        entries_from(samples, sigs, formats, list, before, n),
        before.len() <= after.len(),
        forall|k: int| 0 <= k < before.len() ==> after[k] == before[k],
        forall|a: int, b: int|
            before.len() <= a < b < after.len() ==> field_key(after[a].0) != field_key(after[b].0),
        forall|k: int|
            before.len() <= k < after.len() ==> same_var((#[trigger] after[k]).0.root, sigs[n].root),
        before.len() < after.len() ==> forall|t: int|
            0 <= t < n ==> !(drawn(samples, sigs[t], formats, list) && #[trigger] same_var(
                sigs[t].root,
                sigs[n].root,
            )),
    ensures
        draw_keys_unique(after),
{
    assert forall|a: int, b: int| 0 <= a < b < after.len() implies field_key(after[a].0) != field_key(
        after[b].0,
    ) by {
        if b < before.len() {
            assert(after[a] == before[a]);
            assert(after[b] == before[b]);
        } else if a < before.len() {
            assert(after[a] == before[a]);
            assert(entry_from_some(samples, sigs, formats, list, before[a], n));
            let s = choose|s: int|
                0 <= s < n && first_drawn(samples, sigs, formats, list, s) && #[trigger] entry_of_signal(
                    samples,
                    sigs[s],
                    formats,
                    list,
                    before[a],
                );
            assert(same_var(after[b].0.root, sigs[n].root));
            if field_key(after[a].0) == field_key(after[b].0) {
                assert(same_var(sigs[s].root, sigs[n].root));
            }
        }
    }
}

/// Adds what one signal contributes to `out`: always its clock edges and reset
/// request, its field commands only where `add_fields` holds. Returns whether the
/// signal is drawn.
fn draw_signal(
    samples: &Vec<SampleTime>,
    sig: &SignalInput,
    formats: &SignalFormats,
    translators: &TranslatorList,
    out: &mut DrawData,
    add_fields: bool,
) -> (was_drawn: bool)
    ensures
        was_drawn == drawn(samples@, *sig, *formats, *translators),
        !add_fields ==> final(out).draw_commands@ == old(out).draw_commands@,
        forall|a: int, b: int|
            old(out).draw_commands@.len() <= a < b < final(out).draw_commands@.len() ==> field_key(
                final(out).draw_commands@[a].0,
            ) != field_key(final(out).draw_commands@[b].0),
        final(out).reset_formats@.map_values(|f: FieldRef| field_key(f)) == if needs_reset(
            samples@,
            *sig,
            *formats,
            *translators,
        ) {
            old(out).reset_formats@.map_values(|f: FieldRef| field_key(f)).push(root_key(*sig))
        } else {
            old(out).reset_formats@.map_values(|f: FieldRef| field_key(f))
        },
        pixels_view(final(out).clock_edges@) == if drawn(samples@, *sig, *formats, *translators) {
            let rows = input_rows(samples@, *sig, *formats, *translators);
            pixels_view(old(out).clock_edges@) + edges_upto(
                rows,
                info_of(input_translator(*sig, *formats, *translators).unwrap()),
                rows.len() as int,
            )
        } else {
            pixels_view(old(out).clock_edges@)
        },
        old(out).draw_commands@.len() <= final(out).draw_commands@.len(),
        forall|k: int|
            0 <= k < old(out).draw_commands@.len() ==> final(out).draw_commands@[k] == old(
                out,
            ).draw_commands@[k],
        forall|k: int|
            old(out).draw_commands@.len() <= k < final(out).draw_commands@.len()
                ==> entry_of_signal(
                samples@,
                *sig,
                *formats,
                *translators,
                #[trigger] final(out).draw_commands@[k],
            ),
        forall|p: PathView|
            add_fields && drawn(samples@, *sig, *formats, *translators) && path_occurs(
                input_rows(samples@, *sig, *formats, *translators),
                p,
            ) ==> key_listed(final(out).draw_commands@, (sig.root.path@, sig.root.name@, p)),
{
    let ghost before_resets = out.reset_formats@;
    let ghost before_cmds = out.draw_commands@;
    let meta = match sig.meta {
        Some(m) => m,
        None => {
            return false;
        },
    };
    if sig.queries.len() != samples.len() {
        return false;
    }
    let root = FieldRef::without_fields(clone_var(&sig.root));
    assert(field_key(root) == root_key(*sig)) by {
        assert(root.field_view() =~= Seq::<Seq<char>>::empty());
    }
    let t = match signal_translator(&root, formats, sig.meta, translators) {
        Some(t) => t,
        None => {
            out.reset_formats.push(root);
            assert(out.reset_formats@.map_values(|f: FieldRef| field_key(f))
                =~= before_resets.map_values(|f: FieldRef| field_key(f)).push(root_key(*sig)));
            return false;
        },
    };
    match generate_signal_commands(&t, &meta, samples, &sig.queries) {
        Ok(c) => {
            let ghost rows = input_rows(samples@, *sig, *formats, *translators);
            let ghost before_edges = out.clock_edges@;
            assert(signal_commands_spec(rows, info_of(t), c));
            let mut c = c;
            let ghost cf = c.fields@;
            out.clock_edges.append(&mut c.clock_edges);
            assert(pixels_view(out.clock_edges@) =~= pixels_view(before_edges) + edges_upto(
                rows,
                info_of(t),
                rows.len() as int,
            ));
            if add_fields {
                append_fields(&mut out.draw_commands, &sig.root, c.fields);
                assert forall|k: int|
                    before_cmds.len() <= k < out.draw_commands@.len() implies entry_of_signal(
                    samples@,
                    *sig,
                    *formats,
                    *translators,
                    #[trigger] out.draw_commands@[k],
                ) by {
                    let j = k - before_cmds.len();
                    assert(out.draw_commands@[before_cmds.len() + j] == out.draw_commands@[k]);
                    assert(path_occurs(rows, strings_view(cf[cf.len() - 1 - j].0@)));
                }
                assert forall|p: PathView|
                    drawn(samples@, *sig, *formats, *translators) && path_occurs(
                        input_rows(samples@, *sig, *formats, *translators),
                        p,
                    ) implies key_listed(out.draw_commands@, (sig.root.path@, sig.root.name@, p)) by {
                    let q = choose|q: int| 0 <= q < cf.len() && strings_view(#[trigger] cf[q].0@) == p;
                    let j = cf.len() - 1 - q;
                    assert(field_key(out.draw_commands@[before_cmds.len() + j].0) == (
                        sig.root.path@,
                        sig.root.name@,
                        p,
                    ));
                }
                assert forall|x: int, y: int|
                    before_cmds.len() <= x < y < out.draw_commands@.len() implies field_key(
                        out.draw_commands@[x].0,
                    ) != field_key(out.draw_commands@[y].0) by {
                    let jx = x - before_cmds.len();
                    let jy = y - before_cmds.len();
                    assert(out.draw_commands@[before_cmds.len() + jx] == out.draw_commands@[x]);
                    assert(out.draw_commands@[before_cmds.len() + jy] == out.draw_commands@[y]);
                }
            }
            true
        },
        Err(_) => {
            out.reset_formats.push(root);
            assert(out.reset_formats@.map_values(|f: FieldRef| field_key(f))
                =~= before_resets.map_values(|f: FieldRef| field_key(f)).push(root_key(*sig)));
            false
        },
    }
}

/// Whether `v` is one of `vars`.
pub open spec fn var_listed(vars: Seq<VarName>, v: VarName) -> bool {
    exists|j: int| 0 <= j < vars.len() && #[trigger] same_var(vars[j], v)
}

/// Whether `vars` lists exactly the variables of the drawn signals among the first `n`.
pub open spec fn drawn_vars_exact(
    samples: Seq<SampleTime>,
    sigs: Seq<SignalInput>,
    formats: SignalFormats,
    list: TranslatorList,
    vars: Seq<VarName>,
    n: int,
) -> bool {
    &&& forall|t: int|
        0 <= t < n && drawn(samples, sigs[t], formats, list) ==> var_listed(
            vars,
            #[trigger] sigs[t].root,
        )
    &&& forall|j: int| 0 <= j < vars.len() ==> #[trigger] drawn_before(samples, sigs, formats, list, vars[j], n)
}

/// Whether some drawn signal among the first `n` is for variable `v`.
pub open spec fn drawn_before(
    samples: Seq<SampleTime>,
    sigs: Seq<SignalInput>,
    formats: SignalFormats,
    list: TranslatorList,
    v: VarName,
    n: int,
) -> bool {
    exists|t: int| 0 <= t < n && drawn(samples, sigs[t], formats, list) && #[trigger] same_var(sigs[t].root, v)
}

proof fn lemma_first_drawn_status(
    samples: Seq<SampleTime>,
    sigs: Seq<SignalInput>,
    formats: SignalFormats,
    list: TranslatorList,
    vars: Seq<VarName>,
    n: int,
)
    requires
        0 <= n < sigs.len(),
        drawn_vars_exact(samples, sigs, formats, list, vars, n),
    ensures
        first_drawn(samples, sigs, formats, list, n) == (drawn(samples, sigs[n], formats, list)
            && !var_listed(vars, sigs[n].root)),
        (drawn(samples, sigs[n], formats, list) && !var_listed(vars, sigs[n].root)) ==> forall|t: int|
            0 <= t < n ==> !(drawn(samples, sigs[t], formats, list) && #[trigger] same_var(
                sigs[t].root,
                sigs[n].root,
            )),
{
    if var_listed(vars, sigs[n].root) {
        let j = choose|j: int| 0 <= j < vars.len() && #[trigger] same_var(vars[j], sigs[n].root);
        assert(drawn_before(samples, sigs, formats, list, vars[j], n));
        let t = choose|t: int|
            0 <= t < n && drawn(samples, sigs[t], formats, list) && #[trigger] same_var(
                sigs[t].root,
                vars[j],
            );
        assert(same_var(sigs[t].root, sigs[n].root));
    } else {
        assert forall|t: int|
            0 <= t < n implies !(drawn(samples, sigs[t], formats, list) && #[trigger] same_var(
                sigs[t].root,
                sigs[n].root,
            )) by {
            if drawn(samples, sigs[t], formats, list) && same_var(sigs[t].root, sigs[n].root) {
                assert(var_listed(vars, sigs[t].root));
                let j = choose|j: int| 0 <= j < vars.len() && #[trigger] same_var(vars[j], sigs[t].root);
                assert(same_var(vars[j], sigs[n].root));
            }
        }
    }
}

proof fn lemma_drawn_vars_step(
    samples: Seq<SampleTime>,
    sigs: Seq<SignalInput>,
    formats: SignalFormats,
    list: TranslatorList,
    before: Seq<VarName>,
    after: Seq<VarName>,
    n: int,
)
    requires
        0 <= n < sigs.len(),
        drawn_vars_exact(samples, sigs, formats, list, before, n),
        after == if drawn(samples, sigs[n], formats, list) && !var_listed(before, sigs[n].root) {
            before.push(after.last())
        } else {
            before
        },
        drawn(samples, sigs[n], formats, list) && !var_listed(before, sigs[n].root) ==> same_var(
            after.last(),
            sigs[n].root,
        ),
    ensures
        drawn_vars_exact(samples, sigs, formats, list, after, n + 1),
{
    let added = drawn(samples, sigs[n], formats, list) && !var_listed(before, sigs[n].root);
    assert forall|t: int|
        0 <= t < n + 1 && drawn(samples, sigs[t], formats, list) implies var_listed(
        after,
        #[trigger] sigs[t].root,
    ) by {
        if t < n || !added {
            if t < n {
                assert(var_listed(before, sigs[t].root));
            }
            let j = choose|j: int| 0 <= j < before.len() && #[trigger] same_var(before[j], sigs[t].root);
            assert(after[j] == before[j]);
        } else {
            assert(same_var(after[before.len() as int], sigs[t].root));
        }
    }
    assert forall|j: int| 0 <= j < after.len() implies #[trigger] drawn_before(
        samples,
        sigs,
        formats,
        list,
        after[j],
        n + 1,
    ) by {
        if j < before.len() {
            assert(after[j] == before[j]);
            assert(drawn_before(samples, sigs, formats, list, before[j], n));
            let t = choose|t: int|
                0 <= t < n && drawn(samples, sigs[t], formats, list) && #[trigger] same_var(
                    sigs[t].root,
                    before[j],
                );
            assert(same_var(sigs[t].root, after[j]));
        } else {
            assert(same_var(sigs[n].root, after[j]));
        }
    }
}

fn var_listed_exec(vars: &Vec<VarName>, v: &VarName) -> (r: bool)
    ensures
        r == var_listed(vars@, *v),
{
    let mut j: usize = 0;
    while j < vars.len()
        invariant
            j <= vars.len(),
            forall|k: int| 0 <= k < j ==> !same_var(#[trigger] vars@[k], *v),
        decreases vars.len() - j,
    {
        if vars[j].name == v.name && strings_eq(&vars[j].path.0, &v.path.0) {
            assert(same_var(vars@[j as int], *v));
            return true;
        }
        j += 1;
    }
    false
}

/// Generates the drawing commands of all displayed signals. A signal whose shape
/// the trace does not know, or that lacks a change for some sample, is skipped; one
/// whose translator is unknown or fails is skipped and listed for reset; every
/// other signal adds its clock edges, and the first such signal of each variable
/// adds one list of commands per field, so that no field has two lists.
pub fn generate_draw_commands(
    samples: &Vec<SampleTime>,
    signals: &Vec<SignalInput>,
    formats: &SignalFormats,
    translators: &TranslatorList,
) -> (r: DrawData)
    ensures
        r.reset_formats@.map_values(|f: FieldRef| field_key(f)) == resets_upto(
            samples@,
            signals@,
            *formats,
            *translators,
            signals@.len() as int,
        ),
        pixels_view(r.clock_edges@) == signal_edges_upto(
            samples@,
            signals@,
            *formats,
            *translators,
            signals@.len() as int,
        ),
        entries_from(
            samples@,
            signals@,
            *formats,
            *translators,
            r.draw_commands@,
            signals@.len() as int,
        ),
        covers(samples@, signals@, *formats, *translators, r.draw_commands@, signals@.len() as int),
        draw_keys_unique(r.draw_commands@),
{
    let mut out = DrawData {
        draw_commands: Vec::new(),
        clock_edges: Vec::new(),
        reset_formats: Vec::new(),
    };
    let mut drawn_vars: Vec<VarName> = Vec::new();
    assert(out.reset_formats@.map_values(|f: FieldRef| field_key(f)) =~= Seq::<FieldKey>::empty());
    assert(pixels_view(out.clock_edges@) =~= Seq::<int>::empty());
    let mut i: usize = 0;
    while i < signals.len()
        invariant
            i <= signals.len(),
            out.reset_formats@.map_values(|f: FieldRef| field_key(f)) == resets_upto(
                samples@,
                signals@,
                *formats,
                *translators,
                i as int,
            ),
            pixels_view(out.clock_edges@) == signal_edges_upto(
                samples@,
                signals@,
                *formats,
                *translators,
                i as int,
            ),
            entries_from(samples@, signals@, *formats, *translators, out.draw_commands@, i as int),
            covers(samples@, signals@, *formats, *translators, out.draw_commands@, i as int),
            draw_keys_unique(out.draw_commands@),
            drawn_vars_exact(samples@, signals@, *formats, *translators, drawn_vars@, i as int),
        decreases signals.len() - i,
    {
        let ghost before = out.draw_commands@;
        let ghost before_vars = drawn_vars@;
        let seen = var_listed_exec(&drawn_vars, &signals[i].root);
        let was_drawn = draw_signal(samples, &signals[i], formats, translators, &mut out, !seen);
        proof {
            let n = i as int;
            lemma_first_drawn_status(samples@, signals@, *formats, *translators, before_vars, n);
            if before.len() < out.draw_commands@.len() {
                assert(!seen);
                assert(entry_of_signal(
                    samples@,
                    signals@[n],
                    *formats,
                    *translators,
                    out.draw_commands@[before.len() as int],
                ));
            }
            assert forall|k: int|
                before.len() <= k < out.draw_commands@.len() implies same_var(
                    (#[trigger] out.draw_commands@[k]).0.root,
                    signals@[n].root,
                ) by {
                assert(entry_of_signal(samples@, signals@[n], *formats, *translators, out.draw_commands@[k]));
            }
            lemma_entries_extend(samples@, signals@, *formats, *translators, before, out.draw_commands@, n);
            lemma_covers_extend(samples@, signals@, *formats, *translators, before, out.draw_commands@, n);
            lemma_keys_unique_extend(samples@, signals@, *formats, *translators, before, out.draw_commands@, n);
        }
        if was_drawn && !seen {
            let v = clone_var(&signals[i].root);
            drawn_vars.push(v);
            assert(drawn_vars@[before_vars.len() as int] == v);
        }
        proof {
            lemma_drawn_vars_step(
                samples@,
                signals@,
                *formats,
                *translators,
                before_vars,
                drawn_vars@,
                i as int,
            );
        }
        i += 1;
    }
    out
}

/// A displayed variable after a reload: its shape in the new trace, or `None`
/// where the new trace lacks it.
#[derive(Clone, Debug)]
pub struct ReloadedSignal {
    pub var: VarName,
    pub meta: Option<SignalMeta>,
}

/// The shape in the new trace of the first displayed variable with this path
/// and name.
pub open spec fn reloaded_meta(d: Seq<ReloadedSignal>, path: Seq<Seq<char>>, name: Seq<char>) -> Option<
    SignalMeta,
>
    decreases d.len(),
{
    if d.len() == 0 {
        None
    } else if d[0].var.path@ == path && d[0].var.name@ == name {
        d[0].meta
    } else {
        reloaded_meta(d.drop_first(), path, name)
    }
}

/// Whether a choice for a root field survives a reload: its variable is still
/// displayed and present, and the chosen translator still handles it.
pub open spec fn keeps_root(d: Seq<ReloadedSignal>, list: TranslatorList, e: (FieldKey, Seq<char>)) -> bool {
    &&& e.0.2.len() == 0
    &&& match reloaded_meta(d, e.0.0, e.0.1) {
        Some(m) => handles(list, m, e.1),
        None => false,
    }
}

/// Whether a choice for a member field survives a reload, given the root choices
/// that did: its variable is still displayed and present, and the shape that the
/// root's translator gives still has that member.
pub open spec fn keeps_member(
    d: Seq<ReloadedSignal>,
    list: TranslatorList,
    roots: Seq<(FieldKey, Seq<char>)>,
    e: (FieldKey, Seq<char>),
) -> bool {
    let rk = (e.0.0, e.0.1, Seq::<Seq<char>>::empty());
    &&& e.0.2.len() > 0
    &&& match reloaded_meta(d, e.0.0, e.0.1) {
        Some(m) => match chosen_translator(rk, format_of(roots, rk), Some(m), list) {
            Some(t) => subinfo(info_of(t), e.0.2).is_some(),
            None => false,
        },
        None => false,
    }
}

pub open spec fn kept_roots(d: Seq<ReloadedSignal>, list: TranslatorList, e: Seq<(FieldKey, Seq<char>)>) -> Seq<
    (FieldKey, Seq<char>),
>
    decreases e.len(),
{
    if e.len() == 0 {
        Seq::empty()
    } else if keeps_root(d, list, e.last()) {
        kept_roots(d, list, e.drop_last()).push(e.last())
    } else {
        kept_roots(d, list, e.drop_last())
    }
}

pub open spec fn kept_members(
    d: Seq<ReloadedSignal>,
    list: TranslatorList,
    roots: Seq<(FieldKey, Seq<char>)>,
    e: Seq<(FieldKey, Seq<char>)>,
) -> Seq<(FieldKey, Seq<char>)>
    decreases e.len(),
{
    if e.len() == 0 {
        Seq::empty()
    } else if keeps_member(d, list, roots, e.last()) {
        kept_members(d, list, roots, e.drop_last()).push(e.last())
    } else {
        kept_members(d, list, roots, e.drop_last())
    }
}

fn reloaded_meta_exec(d: &Vec<ReloadedSignal>, f: &FieldRef) -> (r: Option<SignalMeta>)
    ensures
        r == reloaded_meta(d@, f.root.path@, f.root.name@),
{
    let mut i: usize = 0;
    assert(d@.subrange(0, d@.len() as int) =~= d@);
    while i < d.len()
        invariant
            i <= d.len(),
            reloaded_meta(d@, f.root.path@, f.root.name@) == reloaded_meta(
                d@.subrange(i as int, d@.len() as int),
                f.root.path@,
                f.root.name@,
            ),
        decreases d.len() - i,
    {
        let ghost rest = d@.subrange(i as int, d@.len() as int);
        assert(rest.drop_first() =~= d@.subrange(i + 1, d@.len() as int));
        assert(rest[0] == d@[i as int]);
        if d[i].var.name == f.root.name && strings_eq(&d[i].var.path.0, &f.root.path.0) {
            return d[i].meta;
        }
        i += 1;
    }
    None
}

/// The choices of translators that survive a reload of the trace: first those of
/// root fields, in order, then those of member fields, in order.
pub fn update_formats(
    formats: &SignalFormats,
    displayed: &Vec<ReloadedSignal>,
    translators: &TranslatorList,
) -> (r: SignalFormats)
    ensures
        formats_view(r.entries@) == kept_roots(displayed@, *translators, formats_view(formats.entries@))
            + kept_members(
            displayed@,
            *translators,
            kept_roots(displayed@, *translators, formats_view(formats.entries@)),
            formats_view(formats.entries@),
        ),
        formats.wf() ==> r.wf(),
{
    let ghost e = formats_view(formats.entries@);
    let mut roots: Vec<(FieldRef, String)> = Vec::new();
    let mut i: usize = 0;
    while i < formats.entries.len()
        invariant
            e == formats_view(formats.entries@),
            i <= formats.entries.len(),
            formats_view(roots@) == kept_roots(displayed@, *translators, e.subrange(0, i as int)),
            forall|a: int| 0 <= a < roots@.len() ==> exists|j: int| 0 <= j < i && #[trigger] formats_view(roots@)[a] == e[j],
            forall|a: int| 0 <= a < roots@.len() ==> (#[trigger] formats_view(roots@)[a]).0.2.len() == 0,
            unique_keys(e) ==> unique_keys(formats_view(roots@)),
        decreases formats.entries.len() - i,
    {
        let entry = &formats.entries[i];
        let ghost pre = e.subrange(0, i + 1);
        assert(pre.drop_last() =~= e.subrange(0, i as int));
        assert(pre.last() == e[i as int]);
        let keep = entry.0.field.len() == 0 && match reloaded_meta_exec(displayed, &entry.0) {
            Some(m) => translators.is_valid_translator(&m, &entry.1),
            None => false,
        };
        if keep {
            let ghost before = formats_view(roots@);
            roots.push((clone_field_ref(&entry.0), entry.1.clone()));
            assert(formats_view(roots@) =~= before.push(e[i as int]));
            proof {
                assert forall|a: int| 0 <= a < roots@.len() implies exists|j: int| 0 <= j < i + 1 && #[trigger] formats_view(roots@)[a] == e[j] by {
                    if a < before.len() {
                        assert(formats_view(roots@)[a] == before[a]);
                    } else {
                        assert(formats_view(roots@)[a] == e[i as int]);
                    }
                }
                if unique_keys(e) {
                    assert forall|a: int, b: int| 0 <= a < b < formats_view(roots@).len() implies formats_view(roots@)[a].0 != formats_view(roots@)[b].0 by {
                        assert(formats_view(roots@)[a] == before[a]);
                        if b == before.len() {
                            let j = choose|j: int| 0 <= j < i && #[trigger] before[a] == e[j];
                        } else {
                            assert(formats_view(roots@)[b] == before[b]);
                        }
                    }
                }
            }
        }
        i += 1;
    }
    assert(e.subrange(0, e.len() as int) =~= e);
    let ghost rv = formats_view(roots@);
    assert(forall|a: int| 0 <= a < rv.len() ==> (#[trigger] rv[a]).0.2.len() == 0);
    let root_formats = SignalFormats { entries: roots };
    let mut members: Vec<(FieldRef, String)> = Vec::new();
    let mut i: usize = 0;
    while i < formats.entries.len()
        invariant
            e == formats_view(formats.entries@),
            rv == formats_view(root_formats.entries@),
            i <= formats.entries.len(),
            formats_view(members@) == kept_members(displayed@, *translators, rv, e.subrange(0, i as int)),
            forall|a: int| 0 <= a < members@.len() ==> exists|j: int| 0 <= j < i && #[trigger] formats_view(members@)[a] == e[j],
            forall|a: int| 0 <= a < members@.len() ==> (#[trigger] formats_view(members@)[a]).0.2.len() > 0,
            unique_keys(e) ==> unique_keys(formats_view(members@)),
        decreases formats.entries.len() - i,
    {
        let entry = &formats.entries[i];
        let ghost pre = e.subrange(0, i + 1);
        assert(pre.drop_last() =~= e.subrange(0, i as int));
        assert(pre.last() == e[i as int]);
        let mut keep = false;
        if entry.0.field.len() > 0 {
            match reloaded_meta_exec(displayed, &entry.0) {
                Some(m) => {
                    let root = FieldRef::without_fields(clone_var(&entry.0.root));
                    assert(field_key(root) == (e[i as int].0.0, e[i as int].0.1, Seq::<Seq<char>>::empty())) by {
                        assert(root.field_view() =~= Seq::<Seq<char>>::empty());
                    }
                    match signal_translator(&root, &root_formats, Some(m), translators) {
                        Some(t) => {
                            let info = t.signal_info(&m);
                            keep = info.has_subpath(&entry.0.field);
                        },
                        None => {},
                    }
                },
                None => {},
            }
        }
        assert(keep == keeps_member(displayed@, *translators, rv, e[i as int]));
        if keep {
            let ghost before = formats_view(members@);
            members.push((clone_field_ref(&entry.0), entry.1.clone()));
            assert(formats_view(members@) =~= before.push(e[i as int]));
            proof {
                assert forall|a: int| 0 <= a < members@.len() implies exists|j: int| 0 <= j < i + 1 && #[trigger] formats_view(members@)[a] == e[j] by {
                    if a < before.len() {
                        assert(formats_view(members@)[a] == before[a]);
                    } else {
                        assert(formats_view(members@)[a] == e[i as int]);
                    }
                }
                if unique_keys(e) {
                    assert forall|a: int, b: int| 0 <= a < b < formats_view(members@).len() implies formats_view(members@)[a].0 != formats_view(members@)[b].0 by {
                        assert(formats_view(members@)[a] == before[a]);
                        if b == before.len() {
                            let j = choose|j: int| 0 <= j < i && #[trigger] before[a] == e[j];
                        } else {
                            assert(formats_view(members@)[b] == before[b]);
                        }
                    }
                }
            }
        }
        i += 1;
    }
    let mut entries = root_formats.entries;
    let ghost rs = formats_view(entries@);
    let ghost ms = formats_view(members@);
    entries.append(&mut members);
    assert(formats_view(entries@) =~= rs + ms);
    proof {
        if unique_keys(e) {
            assert forall|a: int, b: int| 0 <= a < b < (rs + ms).len() implies (rs + ms)[a].0 != (rs + ms)[b].0 by {
                if a < rs.len() && b >= rs.len() {
                    assert((rs + ms)[a] == rs[a]);
                    assert((rs + ms)[b] == ms[b - rs.len()]);
                } else if a < rs.len() {
                    assert((rs + ms)[a] == rs[a]);
                    assert((rs + ms)[b] == rs[b]);
                } else {
                    assert((rs + ms)[a] == ms[a - rs.len()]);
                    assert((rs + ms)[b] == ms[b - rs.len()]);
                }
            }
        }
    }
    SignalFormats { entries }
}


/// The drawing commands last generated, until a change of the canvas width, the
/// viewport, the displayed signals or a translator makes them stale.
#[derive(Clone, Debug)]
pub struct DrawCache {
    pub data: Option<DrawData>,
}

impl DrawCache {
    pub fn new() -> (r: Self)
        ensures
            r.data.is_none(),
    {
        DrawCache { data: None }
    }

    /// Marks the commands stale: they are generated again before the next use.
    pub fn invalidate(&mut self)
        ensures
            final(self).data.is_none(),
    {
        self.data = None;
    }

    /// Replaces the commands wholesale with freshly generated ones.
    pub fn store(&mut self, data: DrawData)
        ensures
            final(self).data == Some(data),
    {
        self.data = Some(data);
    }

    pub fn is_fresh(&self) -> (r: bool)
        ensures
            r == self.data.is_some(),
    {
        self.data.is_some()
    }
}


/// Trailing flush over all signals: for a signal that is the first drawn one of
/// its variable and has a value at the last sample, the root field of that
/// variable has a list of commands whose last entry stands at the last pixel and
/// holds the value decoded there.
pub proof fn lemma_draw_data_trailing_flush(
    samples: Seq<SampleTime>,
    sigs: Seq<SignalInput>,
    formats: SignalFormats,
    list: TranslatorList,
    out: Seq<(FieldRef, DrawingCommands)>,
    s: int,
)
    requires
        0 <= s < sigs.len(),
        samples.len() >= 2,
        entries_from(samples, sigs, formats, list, out, sigs.len() as int),
        covers(samples, sigs, formats, list, out, sigs.len() as int),
        first_drawn(samples, sigs, formats, list, s),
        sigs[s].queries@.last().is_some(),
    ensures
        exists|k: int|
            0 <= k < out.len() && field_key(#[trigger] out[k].0) == root_key(sigs[s]) && ({
                let c = out[k].1.entries();
                let t = input_translator(sigs[s], formats, list).unwrap();
                &&& c.len() > 0
                &&& c.last().0 == samples.last().pixel as int
                &&& c.last().1 == Some(
                    translation(t, sigs[s].meta.unwrap(), sigs[s].queries@.last().unwrap().value)->Ok_0,
                )
            }),
{
    let sig = sigs[s];
    let t = input_translator(sig, formats, list).unwrap();
    let meta = sig.meta.unwrap();
    let q = sig.queries@;
    let n = samples.len() as int;
    let rows = input_rows(samples, sig, formats, list);
    let root = Seq::<Seq<char>>::empty();
    assert(considered(samples, q, n - 1));
    assert(translation(t, meta, q[n - 1].unwrap().value).is_ok());
    lemma_trailing_flush(t, meta, samples, q);
    assert(rows[n - 2].2[0].0 == root);
    assert(lookup(rows[n - 2].2, root).is_some());
    assert(path_occurs(rows, root));
    assert(key_listed(out, (sig.root.path@, sig.root.name@, root)));
    let k = choose|k: int| 0 <= k < out.len() && field_key(#[trigger] out[k].0) == (sig.root.path@, sig.root.name@, root);
    assert(entry_from_some(samples, sigs, formats, list, out[k], sigs.len() as int));
    let s2 = choose|s2: int|
        0 <= s2 < sigs.len() && first_drawn(samples, sigs, formats, list, s2) && #[trigger] entry_of_signal(
            samples,
            sigs[s2],
            formats,
            list,
            out[k],
        );
    assert(same_var(sigs[s2].root, sigs[s].root));
    if s2 < s {
        assert(!(drawn(samples, sigs[s2], formats, list) && same_var(sigs[s2].root, sigs[s].root)));
    } else if s < s2 {
        assert(same_var(sigs[s].root, sigs[s2].root));
        assert(!(drawn(samples, sigs[s], formats, list) && same_var(sigs[s].root, sigs[s2].root)));
    }
    assert(s2 == s);
    assert(out[k].0.field_view() == root);
}

} // verus!
