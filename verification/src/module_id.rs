//! Module ids: a number or a string.

use vstd::prelude::*;

verus! {

/// A module id, which can be a number or string.
#[derive(Debug, Clone, Hash, PartialEq, Eq, PartialOrd, Ord)]
pub enum ModuleId {
    Number(u32),
    String(String),
}

/// A list of module ids.
#[derive(Debug, Clone, PartialEq, Eq)]
pub struct ModuleIds(pub Vec<ModuleId>);

/// What a `ModuleId` stands for: a number, or the characters of a string.
pub enum ModuleIdView {
    Number(u32),
    String(Seq<char>),
}

impl View for ModuleId {
    type V = ModuleIdView;

    open spec fn view(&self) -> ModuleIdView {
        match self {
            ModuleId::Number(n) => ModuleIdView::Number(*n),
            ModuleId::String(s) => ModuleIdView::String(s@),
        }
    }
}

/// `c` is one of the ten ASCII digits.
pub open spec fn is_digit(c: char) -> bool {
    '0' <= c && c <= '9'
}

/// The number that the ASCII digit `c` stands for.
pub open spec fn digit_value(c: char) -> nat {
    (c as u32 - '0' as u32) as nat
}

/// The ASCII digit for `d`, where `d < 10`.
pub open spec fn digit_char(d: nat) -> char {
    (d + '0' as u32) as char
}

/// The number written by a sequence of digits, most significant first.
pub open spec fn decimal_value(digits: Seq<char>) -> nat
    decreases digits.len(),
{
    if digits.len() == 0 {
        0
    } else {
        decimal_value(digits.drop_last()) * 10 + digit_value(digits.last())
    }
}

/// A non-empty sequence of ASCII digits.
pub open spec fn is_decimal(digits: Seq<char>) -> bool {
    digits.len() > 0 && forall|i: int| 0 <= i < digits.len() ==> is_digit(#[trigger] digits[i])
}

/// The text without one leading plus sign, if it has one.
pub open spec fn without_plus(text: Seq<char>) -> Seq<char> {
    if text.len() > 0 && text[0] == '+' {
        text.subrange(1, text.len() as int)
    } else {
        text
    }
}

/// The unsigned 32-bit number that a text denotes: an optional plus sign, then
/// one or more ASCII digits whose value fits in 32 bits. Any other text
/// denotes none.
pub open spec fn parse_u32_spec(text: Seq<char>) -> Option<u32> {
    let digits = without_plus(text);
    if is_decimal(digits) && decimal_value(digits) <= u32::MAX {
        Some(decimal_value(digits) as u32)
    } else {
        None
    }
}

/// The decimal digits of `n`, most significant first, without leading zeros.
pub open spec fn decimal_digits(n: nat) -> Seq<char>
    decreases n,
{
    if n < 10 {
        seq![digit_char(n)]
    } else {
        decimal_digits(n / 10).push(digit_char(n % 10))
    }
}

/// Calls `str::parse::<u32>`. Trusted: the standard library accepts an
/// optional `+` followed by decimal digits only, and fails when there is no
/// digit, when any other character occurs, or when the value exceeds
/// `u32::MAX`.
#[verifier::external_body]
fn parse_u32(text: &str) -> (r: Option<u32>)
    ensures
        r == parse_u32_spec(text@),
{
    match text.parse::<u32>() {
        Ok(n) => Some(n),
        Err(_) => None,
    }
}

/// Calls `u32::to_string`. Trusted: the standard library writes an unsigned
/// integer in decimal, without sign and without leading zeros.
#[verifier::external_body]
fn u32_to_string(n: u32) -> (r: String)
    ensures
        r@ == decimal_digits(n as nat),
{
    n.to_string()
}

impl ModuleId {
    /// The id that a text denotes: a number where the text is an unsigned
    /// 32-bit integer, the text itself otherwise.
    pub open spec fn spec_parse(text: Seq<char>) -> ModuleIdView {
        match parse_u32_spec(text) {
            Some(n) => ModuleIdView::Number(n),
            None => ModuleIdView::String(text),
        }
    }

    /// The literal value of an id, as text.
    pub open spec fn spec_to_string(id: ModuleIdView) -> Seq<char> {
        match id {
            ModuleIdView::Number(n) => decimal_digits(n as nat),
            ModuleIdView::String(s) => s,
        }
    }

    /// Reads a module id from text. Never fails: text that is no number is a
    /// string id.
    pub fn parse(id: &str) -> (r: Result<ModuleId, crate::error::ChunkingError>)
        ensures
            r is Ok,
            r->Ok_0@ == Self::spec_parse(id@),
    {
        Ok(
            match parse_u32(id) {
                Some(i) => ModuleId::Number(i),
                None => ModuleId::String(id.to_owned()),
            },
        )
    }

    /// The literal value of the id.
    pub fn to_string(&self) -> (r: String)
        ensures
            r@ == Self::spec_to_string(self@),
    {
        match self {
            ModuleId::Number(i) => u32_to_string(*i),
            ModuleId::String(s) => s.clone(),
        }
    }
}

/// The decimal digits of a number are digits, do not start with a sign,
/// and write that number.
pub proof fn lemma_decimal_digits_write_the_number(n: nat)
    ensures
        is_decimal(decimal_digits(n)),
        decimal_value(decimal_digits(n)) == n,
        without_plus(decimal_digits(n)) == decimal_digits(n),
    decreases n,
{
    let digits = decimal_digits(n);
    if n < 10 {
        assert(is_digit(digit_char(n)) && digit_value(digit_char(n)) == n);
        assert(digits.drop_last() =~= Seq::<char>::empty());
        assert(decimal_value(digits.drop_last()) == 0);
    } else {
        lemma_decimal_digits_write_the_number(n / 10);
        let d = n % 10;
        assert(is_digit(digit_char(d)) && digit_value(digit_char(d)) == d);
        let before = decimal_digits(n / 10);
        assert(digits.drop_last() =~= before);
        assert forall|i: int| 0 <= i < digits.len() implies is_digit(#[trigger] digits[i]) by {
            if i < before.len() {
                assert(digits[i] == before[i]);
            }
        }
        assert(digits[0] == before[0]);
    }
}

/// Reading back. The text that `to_string` writes for an id is read by
/// `parse` as the same id, unless it is a string id whose text denotes a
/// number.
pub proof fn lemma_parse_reads_back_to_string(id: ModuleIdView)
    requires
        id matches ModuleIdView::String(text) ==> parse_u32_spec(text) is None,
    ensures
        ModuleId::spec_parse(ModuleId::spec_to_string(id)) == id,
{
    if let ModuleIdView::Number(n) = id {
        lemma_decimal_digits_write_the_number(n as nat);
    }
}

} // verus!
