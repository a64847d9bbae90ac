use vstd::prelude::*;
use vstd::string::StringExecFns;

use crate::translation::{
    binary_digit_values, digits_value, is_binary_digits, radix_string,
    bit_translation, numeric_translation, translate_bit, translate_numeric, SignalInfo, SignalMeta,
    SignalValue, TranslationPreference, ValueKind,
};
use crate::wave_container::strings_view;

verus! {

/// Why a translator refused a sample.
#[derive(Clone, Copy, Debug, PartialEq, Eq, Structural)]
pub enum TranslationError {
    /// The clock translator was handed a variable that is not one bit wide.
    NotOneBit,
}

impl TranslationError {
    /// A description of the error for the log.
    pub fn message(&self) -> (r: String)
        ensures
            r@ == "Clock translator translates a signal which is not 1 bit wide"@,
    {
        match self {
            TranslationError::NotOneBit => String::from_str(
                "Clock translator translates a signal which is not 1 bit wide",
            ),
        }
    }
}

/// A decoded value of a named member of a compound value.
#[derive(Clone, Debug)]
pub struct SubFieldTranslationResult {
    pub name: String,
    pub result: Option<(String, ValueKind)>,
}

/// One decoded sample: the value of the whole, and of each named member.
#[derive(Clone, Debug)]
pub struct TranslationResult {
    pub val: String,
    pub kind: ValueKind,
    pub subfields: Vec<SubFieldTranslationResult>,
}

/// One field of a flattened translation: its path below the root, and its
/// decoded value if it has one at this time.
#[derive(Clone, Debug)]
pub struct FlatField {
    pub path: Vec<String>,
    pub value: Option<(String, ValueKind)>,
}

/// A field value as sequences of characters.
pub open spec fn value_view(v: Option<(String, ValueKind)>) -> Option<(Seq<char>, ValueKind)> {
    match v {
        Some((s, k)) => Some((s@, k)),
        None => None,
    }
}

impl FlatField {
    pub open spec fn view(&self) -> (Seq<Seq<char>>, Option<(Seq<char>, ValueKind)>) {
        (strings_view(self.path@), value_view(self.value))
    }
}

/// The flattened fields of a sequence of flat fields.
pub open spec fn flat_view(v: Seq<FlatField>) -> Seq<(Seq<Seq<char>>, Option<(Seq<char>, ValueKind)>)> {
    v.map_values(|f: FlatField| f.view())
}

impl TranslationResult {
    /// The fields of this result: the root, with the empty path, then each member
    /// under its name.
    pub open spec fn flat(&self) -> Seq<(Seq<Seq<char>>, Option<(Seq<char>, ValueKind)>)> {
        seq![(Seq::<Seq<char>>::empty(), Some((self.val@, self.kind)))] + self.subfields@.map_values(
            |f: SubFieldTranslationResult| (seq![f.name@], value_view(f.result)),
        )
    }

    /// Splits this result into its root field and one field per member.
    pub fn flatten(&self) -> (r: Vec<FlatField>)
        ensures
            flat_view(r@) == self.flat(),
    {
        let mut r: Vec<FlatField> = Vec::new();
        let f0 = FlatField { path: Vec::new(), value: Some((self.val.clone(), self.kind)) };
        assert(strings_view(f0.path@) =~= Seq::<Seq<char>>::empty());
        r.push(f0);
        assert(flat_view(r@) =~= seq![f0.view()]);
        let ghost subs = self.subfields@.map_values(
            |f: SubFieldTranslationResult| (seq![f.name@], value_view(f.result)),
        );
        assert(flat_view(r@) =~= self.flat().subrange(0, 1));
        let mut i: usize = 0;
        while i < self.subfields.len()
            invariant
                i <= self.subfields.len(),
                subs == self.subfields@.map_values(
                    |f: SubFieldTranslationResult| (seq![f.name@], value_view(f.result)),
                ),
                flat_view(r@) =~= self.flat().subrange(0, i + 1),
            decreases self.subfields.len() - i,
        {
            let sub = &self.subfields[i];
            let mut path: Vec<String> = Vec::new();
            path.push(sub.name.clone());
            let value = match &sub.result {
                Some((s, k)) => Some((s.clone(), *k)),
                None => None,
            };
            let f = FlatField { path, value };
            let ghost before = flat_view(r@);
            r.push(f);
            assert(strings_view(f.path@) =~= seq![sub.name@]);
            assert(flat_view(r@) =~= before.push(f.view()));
            assert(self.flat()[i + 1] == subs[i as int]);
            assert(self.flat().subrange(0, i + 2) =~= self.flat().subrange(0, i + 1).push(
                self.flat()[i + 1],
            ));
            i += 1;
        }
        assert(self.flat().subrange(0, self.subfields.len() + 1) =~= self.flat());
        r
    }
}

/// The translator of single-bit signals.
#[derive(Clone, Copy, Debug, PartialEq, Eq, Structural)]
pub struct BitTranslator {}

/// The translator of clock signals: decodes as a single bit does, and draws as a clock.
#[derive(Clone, Copy, Debug, PartialEq, Eq, Structural)]
pub struct ClockTranslator {
    // In order to not duplicate logic, we'll re-use the bit translator internally
    inner: BitTranslator,
}

impl ClockTranslator {
    pub closed spec fn spec_new() -> Self {
        ClockTranslator { inner: BitTranslator {  } }
    }

    pub fn new() -> (r: Self)
        ensures
            r == Self::spec_new(),
    {
        ClockTranslator { inner: BitTranslator {} }
    }
}

/// The translators that write a bit vector as an unsigned number in a fixed base.
#[derive(Clone, Copy, Debug, PartialEq, Eq, Structural)]
pub enum NumericTranslator {
    Hexadecimal,
    Octal,
    Unsigned,
    Binary,
}

impl NumericTranslator {
    pub open spec fn spec_radix(&self) -> u32 {
        match self {
            NumericTranslator::Hexadecimal => 16,
            NumericTranslator::Octal => 8,
            NumericTranslator::Unsigned => 10,
            NumericTranslator::Binary => 2,
        }
    }

    #[verifier::when_used_as_spec(spec_radix)]
    pub fn radix(&self) -> (r: u32)
        ensures
            r == self.spec_radix(),
    {
        match self {
            NumericTranslator::Hexadecimal => 16,
            NumericTranslator::Octal => 8,
            NumericTranslator::Unsigned => 10,
            NumericTranslator::Binary => 2,
        }
    }
}

/// A translator of signal samples into strings: one of the numeric bases, a
/// single bit, or a clock.
#[derive(Clone, Copy, Debug, PartialEq, Eq, Structural)]
pub enum Translator {
    Numeric(NumericTranslator),
    Bit(BitTranslator),
    Clock(ClockTranslator),
}

/// The name a translator is known by.
pub open spec fn translator_name(t: Translator) -> Seq<char> {
    match t {
        Translator::Numeric(NumericTranslator::Hexadecimal) => "Hexadecimal"@,
        Translator::Numeric(NumericTranslator::Octal) => "Octal"@,
        Translator::Numeric(NumericTranslator::Unsigned) => "Unsigned"@,
        Translator::Numeric(NumericTranslator::Binary) => "Binary"@,
        Translator::Bit(_) => "Bit"@,
        Translator::Clock(_) => "Clock"@,
    }
}

/// Whether a translator handles a variable: numeric ones take every bit vector,
/// the bit translator prefers single bits, the clock translator takes single bits.
pub open spec fn preference(t: Translator, meta: SignalMeta) -> TranslationPreference {
    match t {
        Translator::Numeric(_) => if meta.num_bits.is_some() {
            TranslationPreference::Yes
        } else {
            TranslationPreference::No
        },
        Translator::Bit(_) => if meta.spec_is_1bit() {
            TranslationPreference::Prefer
        } else {
            TranslationPreference::No
        },
        Translator::Clock(_) => if meta.spec_is_1bit() {
            TranslationPreference::Yes
        } else {
            TranslationPreference::No
        },
    }
}

/// The decoded value of one sample, or the error the translator reports.
pub open spec fn translation(t: Translator, meta: SignalMeta, value: SignalValue) -> Result<
    (Seq<char>, ValueKind),
    TranslationError,
> {
    match t {
        Translator::Numeric(n) => Ok(numeric_translation(n.spec_radix() as nat, value)),
        Translator::Bit(_) => Ok(bit_translation(value)),
        Translator::Clock(_) => if meta.spec_is_1bit() {
            Ok(bit_translation(value))
        } else {
            Err(TranslationError::NotOneBit)
        },
    }
}

/// The shape of what a translator decodes.
pub open spec fn info_of(t: Translator) -> SignalInfo {
    match t {
        Translator::Numeric(_) => SignalInfo::Bits,
        Translator::Bit(_) => SignalInfo::Bool,
        Translator::Clock(_) => SignalInfo::Clock,
    }
}

impl Translator {
    pub fn name(&self) -> (r: String)
        ensures
            r@ == translator_name(*self),
    {
        match self {
            Translator::Numeric(NumericTranslator::Hexadecimal) => String::from_str("Hexadecimal"),
            Translator::Numeric(NumericTranslator::Octal) => String::from_str("Octal"),
            Translator::Numeric(NumericTranslator::Unsigned) => String::from_str("Unsigned"),
            Translator::Numeric(NumericTranslator::Binary) => String::from_str("Binary"),
            Translator::Bit(_) => String::from_str("Bit"),
            Translator::Clock(_) => String::from_str("Clock"),
        }
    }

    pub fn translates(&self, meta: &SignalMeta) -> (r: TranslationPreference)
        ensures
            r == preference(*self, *meta),
    {
        match self {
            Translator::Numeric(_) => if meta.num_bits.is_some() {
                TranslationPreference::Yes
            } else {
                TranslationPreference::No
            },
            Translator::Bit(_) => if meta.is_1bit() {
                TranslationPreference::Prefer
            } else {
                TranslationPreference::No
            },
            Translator::Clock(_) => if meta.is_1bit() {
                TranslationPreference::Yes
            } else {
                TranslationPreference::No
            },
        }
    }

    pub fn signal_info(&self, meta: &SignalMeta) -> (r: SignalInfo)
        ensures
            r == info_of(*self),
    {
        match self {
            Translator::Numeric(_) => SignalInfo::Bits,
            Translator::Bit(_) => SignalInfo::Bool,
            Translator::Clock(_) => SignalInfo::Clock,
        }
    }

    /// Decodes one sample.
    pub fn translate(&self, meta: &SignalMeta, value: &SignalValue) -> (r: Result<
        TranslationResult,
        TranslationError,
    >)
        ensures
            match translation(*self, *meta, *value) {
                Ok(v) => r.is_ok() && (r->Ok_0.val@, r->Ok_0.kind) == v
                    && r->Ok_0.subfields@.len() == 0,
                Err(e) => r == Err::<TranslationResult, TranslationError>(e),
            },
    {
        let (val, kind) = match self {
            Translator::Numeric(n) => translate_numeric(n.radix(), value),
            Translator::Bit(_) => translate_bit(value),
            Translator::Clock(_) => {
                if meta.is_1bit() {
                    translate_bit(value)
                } else {
                    return Err(TranslationError::NotOneBit);
                }
            },
        };
        Ok(TranslationResult { val, kind, subfields: Vec::new() })
    }
}


/// Four-value logic in the numeric translators: a string holding `x` decodes
/// as undefined, else one holding `z` as high impedance, else one holding `-`
/// as don't-care, each shown as it stands and never read as a number; a
/// non-empty string of `0` and `1` decodes as the number it writes in binary,
/// in the translator's base.
pub proof fn lemma_numeric_four_value(n: NumericTranslator, meta: SignalMeta, s: String)
    ensures
        ({
            let r = translation(Translator::Numeric(n), meta, SignalValue::String(s));
            &&& s@.contains('x') ==> r == Ok::<(Seq<char>, ValueKind), TranslationError>(
                (s@, ValueKind::Undef),
            )
            &&& !s@.contains('x') && s@.contains('z') ==> r == Ok::<
                (Seq<char>, ValueKind),
                TranslationError,
            >((s@, ValueKind::HighImp))
            &&& !s@.contains('x') && !s@.contains('z') && s@.contains('-') ==> r == Ok::<
                (Seq<char>, ValueKind),
                TranslationError,
            >((s@, ValueKind::DontCare))
            &&& is_binary_digits(s@) ==> r == Ok::<(Seq<char>, ValueKind), TranslationError>(
                (
                    radix_string(digits_value(binary_digit_values(s@), 2), n.spec_radix() as nat),
                    ValueKind::Normal,
                ),
            )
        }),
{
    if s@.contains('x') || s@.contains('z') || s@.contains('-') {
        assert(!is_binary_digits(s@)) by {
            if is_binary_digits(s@) {
                let i = choose|i: int|
                    0 <= i < s@.len() && (s@[i] == 'x' || s@[i] == 'z' || s@[i] == '-');
            }
        }
    }
}

/// The clock translator refuses every variable that is not one bit wide.
pub proof fn lemma_clock_rejects_wide(c: ClockTranslator, meta: SignalMeta, v: SignalValue)
    requires
        meta.num_bits != Some(1u32),
    ensures
        translation(Translator::Clock(c), meta, v) == Err::<(Seq<char>, ValueKind), TranslationError>(
            TranslationError::NotOneBit,
        ),
{
}


impl ClockTranslator {
    pub fn name(&self) -> (r: String)
        ensures
            r@ == translator_name(Translator::Clock(*self)),
    {
        Translator::Clock(*self).name()
    }

    /// Decodes a sample as a single bit; refuses a variable that is not one bit wide.
    pub fn translate(&self, meta: &SignalMeta, value: &SignalValue) -> (r: Result<
        TranslationResult,
        TranslationError,
    >)
        ensures
            match translation(Translator::Clock(*self), *meta, *value) {
                Ok(v) => r.is_ok() && (r->Ok_0.val@, r->Ok_0.kind) == v
                    && r->Ok_0.subfields@.len() == 0,
                Err(e) => r == Err::<TranslationResult, TranslationError>(e),
            },
    {
        Translator::Clock(*self).translate(meta, value)
    }

    pub fn signal_info(&self, meta: &SignalMeta) -> (r: SignalInfo)
        ensures
            r == SignalInfo::Clock,
    {
        SignalInfo::Clock
    }

    pub fn translates(&self, meta: &SignalMeta) -> (r: TranslationPreference)
        ensures
            r == preference(Translator::Clock(*self), *meta),
    {
        Translator::Clock(*self).translates(meta)
    }
}

} // verus!
