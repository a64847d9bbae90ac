use vstd::prelude::*;
use vstd::string::StrSliceExecFns;
use vstd::string::StringExecFns;

use crate::wave_container::strings_view;

verus! {

/// How a decoded value is to be shown: plain, or one of the special states of
/// four-value logic, or in a color of its own.
#[derive(Clone, Copy, Debug, PartialEq, Eq, Structural)]
pub enum ValueKind {
    Normal,
    Undef,
    HighImp,
    Custom(u8, u8, u8, u8),
    Warn,
    DontCare,
    Weak,
}

/// Whether a translator can decode a signal, and whether it should be its default.
#[derive(Clone, Copy, Debug, PartialEq, Eq, Structural)]
pub enum TranslationPreference {
    Prefer,
    Yes,
    No,
}

/// What the trace says of a variable that a translator needs: its width in bits,
/// or `None` for a variable that is not a bit vector (a string or a real).
#[derive(Clone, Copy, Debug, PartialEq, Eq, Structural)]
pub struct SignalMeta {
    pub num_bits: Option<u32>,
}

impl SignalMeta {
    pub open spec fn spec_is_1bit(&self) -> bool {
        self.num_bits == Some(1u32)
    }

    #[verifier::when_used_as_spec(spec_is_1bit)]
    pub fn is_1bit(&self) -> (r: bool)
        ensures
            r == self.spec_is_1bit(),
    {
        match self.num_bits {
            Some(n) => n == 1,
            None => false,
        }
    }
}

/// One sample of a signal as the trace holds it: either the bits, as bytes with
/// the most significant first, or a string of four-value logic characters
/// (`0`, `1`, `x`, `z`, `-`, ...), most significant first.
#[derive(Clone, Debug)]
pub enum SignalValue {
    Binary(Vec<u8>),
    String(String),
}

/// A named member of a compound shape.
#[derive(Debug)]
pub struct SubFieldInfo {
    pub name: String,
    pub info: SignalInfo,
}

/// The shape of a decoded value.
#[derive(Debug)]
pub enum SignalInfo {
    Compound { subfields: Vec<SubFieldInfo> },
    Bits,
    Bool,
    Clock,
}

/// The first index at which `subfields` holds a field called `name`.
pub open spec fn find_subfield(subfields: Seq<SubFieldInfo>, name: Seq<char>) -> Option<int>
    decreases subfields.len(),
{
    if subfields.len() == 0 {
        None
    } else {
        match find_subfield(subfields.drop_last(), name) {
            Some(i) => Some(i),
            None => if subfields.last().name@ == name {
                Some(subfields.len() - 1)
            } else {
                None
            },
        }
    }
}

/// The shape found at `path` under `info`, if the path exists.
pub open spec fn subinfo(info: SignalInfo, path: Seq<Seq<char>>) -> Option<SignalInfo>
    decreases path.len(),
{
    if path.len() == 0 {
        Some(info)
    } else {
        match info {
            SignalInfo::Compound { subfields } => match find_subfield(subfields@, path[0]) {
                Some(i) => subinfo(subfields@[i].info, path.drop_first()),
                None => None,
            },
            _ => None,
        }
    }
}

/// Whether the shape at `path` draws as a single line (a boolean or a clock).
pub open spec fn is_bool_like(info: Option<SignalInfo>) -> bool {
    match info {
        Some(SignalInfo::Bool) => true,
        Some(SignalInfo::Clock) => true,
        _ => false,
    }
}

pub open spec fn is_clock(info: Option<SignalInfo>) -> bool {
    match info {
        Some(SignalInfo::Clock) => true,
        _ => false,
    }
}

fn find_subfield_exec(subfields: &Vec<SubFieldInfo>, name: &String) -> (r: Option<usize>)
    ensures
        match r {
            Some(i) => i < subfields.len() && find_subfield(subfields@, name@) == Some(i as int),
            None => find_subfield(subfields@, name@).is_none(),
        },
{
    let mut i: usize = 0;
    while i < subfields.len()
        invariant
            i <= subfields.len(),
            find_subfield(subfields@.subrange(0, i as int), name@).is_none(),
        decreases subfields.len() - i,
    {
        let ghost pre = subfields@.subrange(0, i + 1);
        assert(pre.drop_last() =~= subfields@.subrange(0, i as int));
        if subfields[i].name == *name {
            proof {
                lemma_find_subfield_prefix(subfields@, i as int + 1, name@);
            }
            return Some(i);
        }
        i += 1;
    }
    assert(subfields@.subrange(0, subfields.len() as int) =~= subfields@);
    None
}

proof fn lemma_find_subfield_prefix(subfields: Seq<SubFieldInfo>, k: int, name: Seq<char>)
    requires
        0 <= k <= subfields.len(),
        find_subfield(subfields.subrange(0, k), name).is_some(),
    ensures
        find_subfield(subfields, name) == find_subfield(subfields.subrange(0, k), name),
    decreases subfields.len() - k,
{
    if k < subfields.len() {
        let next = subfields.subrange(0, k + 1);
        assert(next.drop_last() =~= subfields.subrange(0, k));
        lemma_find_subfield_prefix(subfields, k + 1, name);
    } else {
        assert(subfields.subrange(0, k) =~= subfields);
    }
}

impl SignalInfo {
    /// The shape at `path[start..]` under this one, if that path exists.
    pub fn get_subinfo_from(&self, path: &Vec<String>, start: usize) -> (r: Option<&SignalInfo>)
        requires
            start <= path.len(),
        ensures
            match subinfo(*self, strings_view(path@).subrange(start as int, path.len() as int)) {
                Some(i) => r == Some(&i),
                None => r.is_none(),
            },
        decreases path.len() - start,
    {
        let ghost rest = strings_view(path@).subrange(start as int, path.len() as int);
        if start == path.len() {
            assert(rest.len() == 0);
            return Some(self);
        }
        assert(rest[0] == path@[start as int]@);
        assert(rest.drop_first() =~= strings_view(path@).subrange(start + 1, path.len() as int));
        match self {
            SignalInfo::Compound { subfields } => {
                assert(subinfo(*self, rest) == match find_subfield(subfields@, rest[0]) {
                    Some(i) => subinfo(subfields@[i].info, rest.drop_first()),
                    None => None,
                });
                match find_subfield_exec(subfields, &path[start]) {
                    Some(i) => {
                        let r = subfields[i].info.get_subinfo_from(path, start + 1);
                        r
                    },
                    None => None,
                }
            },
            _ => None,
        }
    }

    /// The shape at `path` under this one, if that path exists.
    pub fn get_subinfo(&self, path: &Vec<String>) -> (r: Option<&SignalInfo>)
        ensures
            match subinfo(*self, strings_view(path@)) {
                Some(i) => r == Some(&i),
                None => r.is_none(),
            },
    {
        assert(strings_view(path@).subrange(0, path.len() as int) =~= strings_view(path@));
        self.get_subinfo_from(path, 0)
    }

    /// Whether `path` names a field under this shape.
    pub fn has_subpath(&self, path: &Vec<String>) -> (r: bool)
        ensures
            r == subinfo(*self, strings_view(path@)).is_some(),
    {
        self.get_subinfo(path).is_some()
    }
}


/// The character that stands for digit `d` (below 36): `0`-`9`, then `a`-`z`.
pub open spec fn digit_char(d: nat) -> char {
    seq![
        '0', '1', '2', '3', '4', '5', '6', '7', '8', '9', 'a', 'b', 'c', 'd', 'e', 'f', 'g', 'h',
        'i', 'j', 'k', 'l', 'm', 'n', 'o', 'p', 'q', 'r', 's', 't', 'u', 'v', 'w', 'x', 'y', 'z',
    ][d as int]
}

/// The number that `d` writes in base `base`, most significant digit first.
pub open spec fn digits_value(d: Seq<u8>, base: nat) -> nat
    decreases d.len(),
{
    if d.len() == 0 {
        0
    } else {
        digits_value(d.drop_last(), base) * base + d.last() as nat
    }
}

/// The digits of `n` in base `radix`, most significant first, without leading zeros.
pub open spec fn digits_in_radix(n: nat, radix: nat) -> Seq<char>
    decreases n,
    via digits_in_radix_decreases
{
    if n == 0 || radix < 2 {
        Seq::<char>::empty()
    } else {
        digits_in_radix(n / radix, radix).push(digit_char(n % radix))
    }
}

#[via_fn]
proof fn digits_in_radix_decreases(n: nat, radix: nat) {
    if !(n == 0 || radix < 2) {
        assert(n / radix < n) by (nonlinear_arith)
            requires
                n > 0,
                radix >= 2,
        ;
    }
}

/// `n` written in base `radix`: `"0"` for zero, else its digits without leading zeros.
pub open spec fn radix_string(n: nat, radix: nat) -> Seq<char> {
    if n == 0 {
        seq!['0']
    } else {
        digits_in_radix(n, radix)
    }
}

/// Relies on num's `BigUint::to_str_radix`: a number written in base `to` (2 to
/// 36) with lower-case digits, no leading zeros, and `"0"` for zero. The number is
/// built from `digits` by `BigUint::from_radix_be`, which reads them most
/// significant first in base `from` (2 to 256) and succeeds when each is below it.
#[verifier::external_body]
fn digits_to_radix_string(digits: &[u8], from: u32, to: u32) -> (r: String)
    requires
        2 <= from <= 256,
        2 <= to <= 36,
        forall|i: int| 0 <= i < digits@.len() ==> (digits@[i] as nat) < from,
    ensures
        r@ == radix_string(digits_value(digits@, from as nat), to as nat),
{
    match num::BigUint::from_radix_be(digits, from) {
        Some(v) => v.to_str_radix(to),
        None => String::new(),
    }
}

/// The kind of a value written in four-value logic characters: the first of
/// `x`, `z`, `-`, `u`/`w`, `h`/`l` that occurs decides it.
pub open spec fn marker_kind(s: Seq<char>) -> ValueKind {
    if s.contains('x') {
        ValueKind::Undef
    } else if s.contains('z') {
        ValueKind::HighImp
    } else if s.contains('-') {
        ValueKind::DontCare
    } else if s.contains('u') || s.contains('w') {
        ValueKind::Undef
    } else if s.contains('h') || s.contains('l') {
        ValueKind::Weak
    } else {
        ValueKind::Normal
    }
}

/// Whether `s` is a non-empty string of `0` and `1` alone.
pub open spec fn is_binary_digits(s: Seq<char>) -> bool {
    s.len() > 0 && forall|i: int| 0 <= i < s.len() ==> (s[i] == '0' || s[i] == '1')
}

/// The digit values of a string of `0` and `1`.
pub open spec fn binary_digit_values(s: Seq<char>) -> Seq<u8> {
    s.map_values(|c: char| if c == '1' { 1u8 } else { 0u8 })
}

fn contains_char(s: &str, c: char) -> (r: bool)
    ensures
        r == s@.contains(c),
{
    let n = s.unicode_len();
    let mut i: usize = 0;
    while i < n
        invariant
            n == s@.len(),
            i <= n,
            forall|k: int| 0 <= k < i ==> s@[k] != c,
        decreases n - i,
    {
        if s.get_char(i) == c {
            return true;
        }
        i += 1;
    }
    false
}

/// The kind that the four-value logic characters of `s` give.
pub fn value_kind_of(s: &str) -> (r: ValueKind)
    ensures
        r == marker_kind(s@),
{
    if contains_char(s, 'x') {
        ValueKind::Undef
    } else if contains_char(s, 'z') {
        ValueKind::HighImp
    } else if contains_char(s, '-') {
        ValueKind::DontCare
    } else if contains_char(s, 'u') || contains_char(s, 'w') {
        ValueKind::Undef
    } else if contains_char(s, 'h') || contains_char(s, 'l') {
        ValueKind::Weak
    } else {
        ValueKind::Normal
    }
}

/// The digit values of `s` if it holds only `0` and `1` and is not empty.
fn binary_digits(s: &str) -> (r: Option<Vec<u8>>)
    ensures
        r.is_some() == is_binary_digits(s@),
        r.is_some() ==> r.unwrap()@ == binary_digit_values(s@),
{
    let n = s.unicode_len();
    if n == 0 {
        return None;
    }
    let mut digits: Vec<u8> = Vec::new();
    let mut i: usize = 0;
    while i < n
        invariant
            n == s@.len(),
            i <= n,
            forall|k: int| 0 <= k < i ==> (s@[k] == '0' || s@[k] == '1'),
            digits@ =~= binary_digit_values(s@.subrange(0, i as int)),
        decreases n - i,
    {
        let c = s.get_char(i);
        if c == '0' {
            digits.push(0);
        } else if c == '1' {
            digits.push(1);
        } else {
            return None;
        }
        assert(s@.subrange(0, i + 1) =~= s@.subrange(0, i as int).push(c));
        i += 1;
    }
    assert(s@.subrange(0, n as int) =~= s@);
    Some(digits)
}

/// The numeric translation of a sample in base `radix`: bits become the number
/// they write; a string of `0`/`1` is read as binary; any other string is shown
/// as it stands, with the kind its four-value logic characters give.
pub open spec fn numeric_translation(radix: nat, value: SignalValue) -> (Seq<char>, ValueKind) {
    match value {
        SignalValue::Binary(bytes) => (radix_string(digits_value(bytes@, 256), radix), ValueKind::Normal),
        SignalValue::String(s) => if is_binary_digits(s@) {
            (radix_string(digits_value(binary_digit_values(s@), 2), radix), ValueKind::Normal)
        } else {
            (s@, marker_kind(s@))
        },
    }
}

/// The translation of a single bit: bits become `0` or `1`; a string stands as it
/// is, with the kind its four-value logic characters give.
pub open spec fn bit_translation(value: SignalValue) -> (Seq<char>, ValueKind) {
    match value {
        SignalValue::Binary(bytes) => (radix_string(digits_value(bytes@, 256), 2), ValueKind::Normal),
        SignalValue::String(s) => (s@, marker_kind(s@)),
    }
}

/// Renders the bits of a sample in base `radix`.
fn translate_bytes(bytes: &Vec<u8>, radix: u32) -> (r: String)
    requires
        2 <= radix <= 36,
    ensures
        r@ == radix_string(digits_value(bytes@, 256), radix as nat),
{
    digits_to_radix_string(bytes.as_slice(), 256, radix)
}

/// Translates a sample for a numeric translator of base `radix`.
pub fn translate_numeric(radix: u32, value: &SignalValue) -> (r: (String, ValueKind))
    requires
        2 <= radix <= 36,
    ensures
        (r.0@, r.1) == numeric_translation(radix as nat, *value),
{
    match value {
        SignalValue::Binary(bytes) => (translate_bytes(bytes, radix), ValueKind::Normal),
        SignalValue::String(s) => match binary_digits(s.as_str()) {
            Some(digits) => {
                (digits_to_radix_string(digits.as_slice(), 2, radix), ValueKind::Normal)
            },
            None => (s.clone(), value_kind_of(s.as_str())),
        },
    }
}

/// Translates a sample for the single-bit translator.
pub fn translate_bit(value: &SignalValue) -> (r: (String, ValueKind))
    ensures
        (r.0@, r.1) == bit_translation(*value),
{
    match value {
        SignalValue::Binary(bytes) => (translate_bytes(bytes, 2), ValueKind::Normal),
        SignalValue::String(s) => (s.clone(), value_kind_of(s.as_str())),
    }
}

} // verus!
