//! The amounts a player types into the editor, and the messages it shows.

use vstd::prelude::*;
use vstd::string::*;
use crate::error::Error;
use crate::text::{decimal_chars, decimal_string, digit_char, join2, join3};

verus! {

/// The value of a sequence of decimal digits.
pub open spec fn digits_value(ds: Seq<char>) -> nat
    decreases ds.len(),
{
    if ds.len() == 0 {
        0
    } else {
        digits_value(ds.drop_last()) * 10 + (ds.last() as int - 48) as nat
    }
}

/// A non-empty run of ASCII decimal digits.
pub open spec fn is_digits(ds: Seq<char>) -> bool {
    &&& ds.len() > 0
    &&& forall|i: int| 0 <= i < ds.len() ==> 48 <= #[trigger] (ds[i] as int) <= 57
}

/// What `u64::from_str` accepts: an optional `+`, then decimal digits whose
/// value fits in 64 bits.
pub open spec fn spec_parse_u64(s: Seq<char>) -> Option<u64> {
    let ds = if s.len() > 0 && s[0] == '+' {
        s.drop_first()
    } else {
        s
    };
    if is_digits(ds) && digits_value(ds) <= u64::MAX {
        Some(digits_value(ds) as u64)
    } else {
        None
    }
}

/// A character with the Unicode `White_Space` property, which is what
/// `str::trim` removes.
pub open spec fn is_white_space(c: char) -> bool {
    let u = c as u32;
    ||| 0x9 <= u <= 0xd
    ||| u == 0x20
    ||| u == 0x85
    ||| u == 0xa0
    ||| u == 0x1680
    ||| 0x2000 <= u <= 0x200a
    ||| u == 0x2028
    ||| u == 0x2029
    ||| u == 0x202f
    ||| u == 0x205f
    ||| u == 0x3000
}

/// The first index at or after `i` whose character is not white space, or
/// the length of `s`.
pub open spec fn first_kept(s: Seq<char>, i: nat) -> nat
    decreases s.len() - i,
{
    if i >= s.len() {
        s.len()
    } else if is_white_space(s[i as int]) {
        first_kept(s, i + 1)
    } else {
        i
    }
}

/// The end of the last character before `j` that is not white space, or 0.
pub open spec fn last_kept_end(s: Seq<char>, j: nat) -> nat
    decreases j,
{
    if j == 0 || j > s.len() {
        0
    } else if is_white_space(s[j - 1]) {
        last_kept_end(s, (j - 1) as nat)
    } else {
        j
    }
}

/// `s` without its leading and trailing white space.
pub open spec fn trimmed(s: Seq<char>) -> Seq<char> {
    let a = first_kept(s, 0);
    let b = last_kept_end(s, s.len());
    if a < b {
        s.subrange(a as int, b as int)
    } else {
        Seq::empty()
    }
}

proof fn lemma_decimal_digits(n: nat)
    ensures
        is_digits(decimal_chars(n)),
        digits_value(decimal_chars(n)) == n,
    decreases n,
{
    if n < 10 {
        let ds = decimal_chars(n);
        assert(ds.drop_last() =~= Seq::<char>::empty());
        assert(ds.last() as int == 48 + n);
        assert(digits_value(ds.drop_last()) == 0);
        assert(digits_value(ds) == digits_value(ds.drop_last()) * 10 + (ds.last() as int - 48) as nat);
    } else {
        lemma_decimal_digits(n / 10);
        let prev = decimal_chars(n / 10);
        let ds = decimal_chars(n);
        assert(ds == prev.push(digit_char(n % 10)));
        assert(ds.drop_last() =~= prev);
        assert(ds.last() as int == 48 + n % 10);
        assert forall|i: int| 0 <= i < ds.len() implies 48 <= #[trigger] (ds[i] as int) <= 57 by {
            if i < prev.len() {
                assert(ds[i] == prev[i]);
            }
        }
        assert(digits_value(ds) == digits_value(prev) * 10 + (ds.last() as int - 48) as nat);
        assert(n == (n / 10) * 10 + n % 10);
    }
}

/// An amount shown in decimal reads back as itself: the editor accepts
/// what it writes in its messages.
pub proof fn lemma_decimal_parses_back(n: u64)
    ensures
        spec_parse_u64(decimal_chars(n as nat)) == Some(n),
{
    lemma_decimal_digits(n as nat);
    let ds = decimal_chars(n as nat);
    assert(ds[0] != '+') by {
        assert(48 <= (ds[0] as int) <= 57);
    }
}

proof fn lemma_first_kept(s: Seq<char>, i: nat)
    requires
        i <= s.len(),
    ensures
        i <= first_kept(s, i) <= s.len(),
        forall|k: int| i <= k < first_kept(s, i) ==> is_white_space(s[k]),
        first_kept(s, i) < s.len() ==> !is_white_space(s[first_kept(s, i) as int]),
    decreases s.len() - i,
{
    if i < s.len() && is_white_space(s[i as int]) {
        lemma_first_kept(s, i + 1);
    }
}

proof fn lemma_last_kept_end(s: Seq<char>, j: nat)
    requires
        j <= s.len(),
    ensures
        last_kept_end(s, j) <= j,
        forall|k: int| last_kept_end(s, j) <= k < j ==> is_white_space(s[k]),
        last_kept_end(s, j) > 0 ==> !is_white_space(s[last_kept_end(s, j) - 1]),
    decreases j,
{
    if j > 0 && is_white_space(s[j - 1]) {
        lemma_last_kept_end(s, (j - 1) as nat);
    }
}

/// Trimming keeps the text between the white space at either end: the
/// result stands in the input with only white space before and after it,
/// and, unless it is empty, neither starts nor ends with white space. An
/// input of white space only trims to nothing.
pub proof fn lemma_trimmed_shape(s: Seq<char>)
    ensures
        ({
            let t = trimmed(s);
            &&& t.len() == 0 ==> forall|k: int| 0 <= k < s.len() ==> is_white_space(#[trigger] s[k])
            &&& t.len() > 0 ==> {
                &&& !is_white_space(t[0])
                &&& !is_white_space(t.last())
                &&& exists|a: int|
                    0 <= a && a + t.len() <= s.len() && #[trigger] s.subrange(a, a + t.len()) == t
                        && (forall|k: int| 0 <= k < a ==> is_white_space(#[trigger] s[k])) && (
                    forall|k: int| a + t.len() <= k < s.len() ==> is_white_space(#[trigger] s[k]))
            }
        }),
{
    lemma_first_kept(s, 0);
    lemma_last_kept_end(s, s.len());
    let a = first_kept(s, 0);
    let b = last_kept_end(s, s.len());
    let t = trimmed(s);
    if a < b {
        assert(t[0] == s[a as int]);
        assert(t.last() == s[b - 1]);
        assert(s.subrange(a as int, a as int + t.len()) =~= t);
    } else {
        assert forall|k: int| 0 <= k < s.len() implies is_white_space(#[trigger] s[k]) by {
            if k >= a {
                assert(k >= b);
            }
        }
    }
}

/// Calls `s.trim()` and copies the result. Trusted, as std documents it:
/// leading and trailing characters with the Unicode `White_Space` property
/// are removed.
#[verifier::external_body]
fn trim_text(s: &str) -> (r: String)
    ensures
        r@ == trimmed(s@),
{
    s.trim().to_string()
}

/// Calls `s.parse::<u64>()`. Trusted, as std documents it: the string must be
/// an optional `+` followed by decimal digits only, with a value that fits
/// in a `u64`.
#[verifier::external_body]
fn parse_decimal(s: &str) -> (r: Option<u64>)
    ensures
        r == spec_parse_u64(s@),
{
    s.parse::<u64>().ok()
}

/// Read an amount: an optional `+` followed by decimal digits, at most
/// `u64::MAX`.
pub fn parse_amount(s: &str) -> (r: Option<u64>)
    ensures
        r == spec_parse_u64(s@),
{
    parse_decimal(s)
}

/// The edits asked for: a gold value, and optionally renown's current value
/// (which locates the record) and its new value.
#[derive(Clone, Copy, Debug, PartialEq, Eq)]
pub struct EditRequest {
    pub gold: u64,
    pub renown: Option<(u64, u64)>,
}

/// Message for a gold amount that is not a whole number.
pub open spec fn gold_input_message() -> Seq<char> {
    "Gold: enter a whole number ≥ 0."@
}

/// Message for a renown pair that is not two whole numbers.
pub open spec fn renown_input_message() -> Seq<char> {
    "Renown: enter both the current (in-game) and new value as whole numbers ≥ 0."@
}

/// The request the three fields make, after trimming each: the gold must be
/// a whole number; renown is skipped when both of its fields are blank, and
/// otherwise both must be whole numbers.
pub open spec fn spec_read_form(gold: Seq<char>, current: Seq<char>, new: Seq<char>) -> Result<
    EditRequest,
    Seq<char>,
> {
    match spec_parse_u64(trimmed(gold)) {
        None => Err(gold_input_message()),
        Some(g) => {
            let c = trimmed(current);
            let n = trimmed(new);
            if c.len() == 0 && n.len() == 0 {
                Ok(EditRequest { gold: g, renown: None })
            } else {
                match (spec_parse_u64(c), spec_parse_u64(n)) {
                    (Some(a), Some(b)) => Ok(EditRequest { gold: g, renown: Some((a, b)) }),
                    _ => Err(renown_input_message()),
                }
            }
        },
    }
}

/// Read the editor's fields: new gold, renown shown in game, new renown.
/// Returns the request, or the message to show.
pub fn read_form(gold_input: &str, renown_current: &str, renown_new: &str) -> (r: Result<
    EditRequest,
    String,
>)
    ensures
        match spec_read_form(gold_input@, renown_current@, renown_new@) {
            Ok(q) => r == Ok::<EditRequest, String>(q),
            Err(m) => r matches Err(s) && s@ == m,
        },
{
    let g = trim_text(gold_input);
    let gold = match parse_decimal(g.as_str()) {
        None => return Err(String::from_str("Gold: enter a whole number ≥ 0.")),
        Some(v) => v,
    };
    let c = trim_text(renown_current);
    let n = trim_text(renown_new);
    if c.as_str().unicode_len() == 0 && n.as_str().unicode_len() == 0 {
        return Ok(EditRequest { gold, renown: None });
    }
    match (parse_decimal(c.as_str()), parse_decimal(n.as_str())) {
        (Some(a), Some(b)) => Ok(EditRequest { gold, renown: Some((a, b)) }),
        _ => Err(
            String::from_str(
                "Renown: enter both the current (in-game) and new value as whole numbers ≥ 0.",
            ),
        ),
    }
}

/// The message after a successful save.
pub open spec fn spec_saved_message(q: EditRequest) -> Seq<char> {
    "Saved. Gold set to "@ + decimal_chars(q.gold as nat) + match q.renown {
        Some((_, n)) => ", renown to "@ + decimal_chars(n as nat),
        None => Seq::empty(),
    } + ". Backup at <file>.bak."@
}

/// The message after `q` was saved.
pub fn saved_message(q: EditRequest) -> (s: String)
    ensures
        s@ == spec_saved_message(q),
{
    let mut s = join2("Saved. Gold set to ", decimal_string(q.gold).as_str());
    if let Some((_, n)) = q.renown {
        s.append(join2(", renown to ", decimal_string(n).as_str()).as_str());
    }
    s.append(". Backup at <file>.bak.");
    proof {
        assert(s@ =~= spec_saved_message(q));
    }
    s
}

/// The file name of a save's backup: the save's whole file name followed by
/// `.bak` (`Klint_1.sav` gives `Klint_1.sav.bak`, `Klint_1` gives
/// `Klint_1.bak`).
pub fn backup_name(file_name: &str) -> (s: String)
    ensures
        s@ == file_name@ + ".bak"@,
{
    join2(file_name, ".bak")
}

impl Error {
    /// The text shown for this error.
    pub open spec fn spec_message(&self) -> Seq<char> {
        match self {
            Error::Io(s) => "File error: "@ + s@,
            Error::BadFile(s) => "Not a recognizable Bellwright save: "@ + s@,
            Error::Decompress(s) => "Decompression failed: "@ + s@,
            Error::GoldNotFound(n) => if *n == 0 {
                "Could not locate the gold field in this save."@
            } else {
                "Ambiguous: found "@ + decimal_chars(*n as nat)
                    + " possible gold fields; refusing to edit."@
            },
            Error::RenownNotFound(n) => if *n == 0 {
                "Could not locate the renown field in this save."@
            } else {
                "Ambiguous: found "@ + decimal_chars(*n as nat)
                    + " possible renown fields; refusing to edit."@
            },
            Error::ParseError(s) => "Save structure error: "@ + s@,
            Error::TooLarge(s) => "Unsupported edit: "@ + s@,
        }
    }

    /// The text shown for this error.
    pub fn message(&self) -> (s: String)
        ensures
            s@ == self.spec_message(),
    {
        match self {
            Error::Io(s) => join2("File error: ", s.as_str()),
            Error::BadFile(s) => join2("Not a recognizable Bellwright save: ", s.as_str()),
            Error::Decompress(s) => join2("Decompression failed: ", s.as_str()),
            Error::GoldNotFound(n) => if *n == 0 {
                String::from_str("Could not locate the gold field in this save.")
            } else {
                join3(
                    "Ambiguous: found ",
                    decimal_string(*n as u64).as_str(),
                    " possible gold fields; refusing to edit.",
                )
            },
            Error::RenownNotFound(n) => if *n == 0 {
                String::from_str("Could not locate the renown field in this save.")
            } else {
                join3(
                    "Ambiguous: found ",
                    decimal_string(*n as u64).as_str(),
                    " possible renown fields; refusing to edit.",
                )
            },
            Error::ParseError(s) => join2("Save structure error: ", s.as_str()),
            Error::TooLarge(s) => join2("Unsupported edit: ", s.as_str()),
        }
    }
}

} // verus!
