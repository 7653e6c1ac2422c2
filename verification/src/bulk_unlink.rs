//! Unlinking blobstore keys in bulk: what the command is given, how the
//! repository and the blobstore key are read out of a line of a key file,
//! and what is done with each line.

use vstd::prelude::*;
use vstd::string::StrSliceExecFns;

verus! {

/// What the command is given.
#[derive(Clone, Debug, PartialEq, Eq)]
pub struct CommandArgs {
    /// The directory that holds the key files.
    pub keys_dir: String,
    /// Whether the keys are only printed.
    pub dry_run: bool,
    /// The pattern that every key to be unlinked has to match.
    pub sanitise_regex: String,
}

impl CommandArgs {
    pub fn new(keys_dir: String, dry_run: bool, sanitise_regex: String) -> (args: CommandArgs)
        ensures
            args.keys_dir == keys_dir,
            args.dry_run == dry_run,
            args.sanitise_regex == sanitise_regex,
    {
        CommandArgs { keys_dir, dry_run, sanitise_regex }
    }
}

/// Why a line of a key file gives no key.
#[derive(Clone, Copy, Debug, PartialEq, Eq)]
pub enum KeyError {
    /// The pattern that reads the line is not a regular expression.
    BadPattern,
    /// The line does not have the shape of a key.
    NoCapture,
    /// The repository named in the line is not a number that fits.
    InvalidRepoId,
}

/// The pattern that finds the number of the repository in a line.
pub const REPO_ID_PATTERN: &'static str = ".*repo([0-9]+)..*";

/// The pattern that finds the blobstore key in a line.
pub const BLOBSTORE_KEY_PATTERN: &'static str = ".*(repo[0-9]+..*)";

/// Whether `regex::Regex::new` accepts the pattern.
pub uninterp spec fn pattern_compiles(pattern: Seq<char>) -> bool;

/// Whether the pattern, once compiled, matches somewhere in the text, as
/// `regex::Regex::is_match` says.
pub uninterp spec fn pattern_matches(pattern: Seq<char>, text: Seq<char>) -> bool;

/// What the leftmost match of the pattern in the text captures in the given
/// group, as `regex::Regex::captures` and `regex::Captures::get` say:
/// nothing where there is no match, and no text where there is a match that
/// the group took no part in.
pub uninterp spec fn pattern_group(pattern: Seq<char>, text: Seq<char>, group: int) -> Option<
    Option<Seq<char>>,
>;

/// The characters of what was captured.
pub open spec fn capture_view(capture: Option<Option<String>>) -> Option<Option<Seq<char>>> {
    match capture {
        None => None,
        Some(None) => Some(None),
        Some(Some(text)) => Some(Some(text@)),
    }
}

/// Calls `regex::Regex::new` and says whether it accepted the pattern. The
/// contract gives that answer a name and claims nothing else of it.
#[verifier::external_body]
fn regex_compiles(pattern: &str) -> (ok: bool)
    ensures
        ok == pattern_compiles(pattern@),
{
    regex::Regex::new(pattern).is_ok()
}

/// Calls `regex::Regex::is_match` on a pattern that compiles. The contract
/// gives the answer a name and claims nothing else of it.
#[verifier::external_body]
fn regex_is_match(pattern: &str, text: &str) -> (found: bool)
    requires
        pattern_compiles(pattern@),
    ensures
        found == pattern_matches(pattern@, text@),
{
    regex::Regex::new(pattern).unwrap().is_match(text)
}

/// Calls `regex::Regex::captures` on a pattern that compiles, and
/// `regex::Captures::get` on what it found. The contract gives the text of
/// the group a name and claims nothing else of it.
#[verifier::external_body]
fn regex_capture(pattern: &str, text: &str, group: usize) -> (capture: Option<Option<String>>)
    requires
        pattern_compiles(pattern@),
    ensures
        capture_view(capture) == pattern_group(pattern@, text@, group as int),
{
    let re = regex::Regex::new(pattern).unwrap();
    match re.captures(text) {
        None => None,
        Some(found) => match found.get(group) {
            None => Some(None),
            Some(part) => Some(Some(part.as_str().to_string())),
        },
    }
}

/// Whether the character is one of the ten digits.
pub open spec fn is_digit(c: char) -> bool {
    '0' <= c <= '9'
}

/// The number that the digits write in base ten.
pub open spec fn decimal_value(digits: Seq<char>) -> nat
    decreases digits.len(),
{
    if digits.len() == 0 {
        0
    } else {
        (decimal_value(digits.drop_last()) * 10 + (digits.last() as int - '0' as int)) as nat
    }
}

/// The digits of a number, without the sign that may stand before them.
pub open spec fn unsigned_part(text: Seq<char>) -> Seq<char> {
    if text.len() > 0 && (text[0] == '-' || text[0] == '+') {
        text.subrange(1, text.len() as int)
    } else {
        text
    }
}

/// The number that the text writes: an optional sign and then digits only,
/// at least one, for a value that fits in 32 bits.
pub open spec fn parse_number(text: Seq<char>) -> Option<i32> {
    let digits = unsigned_part(text);
    let value = if text.len() > 0 && text[0] == '-' {
        -(decimal_value(digits) as int)
    } else {
        decimal_value(digits) as int
    };
    if digits.len() > 0 && (forall|i: int| 0 <= i < digits.len() ==> is_digit(digits[i]))
        && i32::MIN <= value <= i32::MAX {
        Some(value as i32)
    } else {
        None
    }
}

proof fn lemma_decimal_value_grows(digits: Seq<char>, n: int)
    requires
        0 <= n <= digits.len(),
        forall|i: int| 0 <= i < digits.len() ==> is_digit(digits[i]),
    ensures
        decimal_value(digits.subrange(0, n)) <= decimal_value(digits),
    decreases digits.len() - n,
{
    if n < digits.len() {
        let next = digits.subrange(0, n + 1);
        assert(next.drop_last() =~= digits.subrange(0, n));
        assert(next.last() == digits[n]);
        assert(decimal_value(digits.subrange(0, n)) <= decimal_value(next)) by (nonlinear_arith)
            requires
                decimal_value(next) == decimal_value(digits.subrange(0, n)) * 10 + (digits[n] as int
                    - '0' as int),
                digits[n] as int - '0' as int >= 0,
        ;
        lemma_decimal_value_grows(digits, n + 1);
    } else {
        assert(digits.subrange(0, n) =~= digits);
    }
}

/// Reads the number of a repository.
pub fn parse_repo_id(text: &str) -> (id: Option<i32>)
    ensures
        id == parse_number(text@),
{
    let n = text.unicode_len();
    if n == 0 {
        return None;
    }
    let first = text.get_char(0);
    let negative = first == '-';
    let start: usize = if first == '-' || first == '+' {
        1
    } else {
        0
    };
    let ghost digits = unsigned_part(text@);
    if start == n {
        return None;
    }
    assert(digits =~= text@.subrange(start as int, n as int));
    let limit: i64 = 2147483648;
    let mut value: i64 = 0;
    let mut too_large = false;
    let mut i: usize = start;
    while i < n
        invariant
            start <= i <= n,
            n == text@.len(),
            digits == text@.subrange(start as int, n as int),
            digits == unsigned_part(text@),
            limit == 2147483648,
            forall|k: int| 0 <= k < i - start ==> is_digit(digits[k]),
            !too_large ==> value == decimal_value(digits.subrange(0, i - start)) && 0 <= value
                <= limit,
            too_large ==> decimal_value(digits.subrange(0, i - start)) > limit,
        decreases n - i,
    {
        let c = text.get_char(i);
        assert(c == digits[i - start]);
        if !(c >= '0' && c <= '9') {
            assert(!is_digit(digits[i - start]));
            return None;
        }
        let digit: i64 = (c as u32 - '0' as u32) as i64;
        proof {
            let next = digits.subrange(0, i + 1 - start);
            assert(next.drop_last() =~= digits.subrange(0, i - start));
            assert(next.last() == c);
        }
        if !too_large {
            let wider: i64 = value * 10 + digit;
            if wider > limit {
                too_large = true;
            } else {
                value = wider;
            }
        } else {
            assert(decimal_value(digits.subrange(0, i + 1 - start)) > limit) by (nonlinear_arith)
                requires
                    decimal_value(digits.subrange(0, i + 1 - start)) == decimal_value(
                        digits.subrange(0, i - start),
                    ) * 10 + digit,
                    decimal_value(digits.subrange(0, i - start)) > limit,
                    digit >= 0,
                    limit > 0,
            ;
        }
        i += 1;
    }
    assert(digits.subrange(0, n - start) =~= digits);
    if too_large {
        return None;
    }
    if negative {
        Some((0 - value) as i32)
    } else if value == limit {
        None
    } else {
        Some(value as i32)
    }
}

/// The repository that a line names, given whether the pattern for it
/// compiles and what its first group captured.
pub open spec fn repo_id_of(compiles: bool, capture: Option<Option<Seq<char>>>) -> Result<
    i32,
    KeyError,
> {
    if !compiles {
        Err(KeyError::BadPattern)
    } else {
        match capture {
            None => Err(KeyError::NoCapture),
            Some(None) => Err(KeyError::InvalidRepoId),
            Some(Some(text)) => match parse_number(text) {
                Some(id) => Ok(id),
                None => Err(KeyError::InvalidRepoId),
            },
        }
    }
}

/// The repository that the captured text names.
pub fn repo_id_from_capture(capture: Option<Option<String>>) -> (r: Result<i32, KeyError>)
    ensures
        r == repo_id_of(true, capture_view(capture)),
{
    match capture {
        None => Err(KeyError::NoCapture),
        Some(None) => Err(KeyError::InvalidRepoId),
        Some(Some(text)) => match parse_repo_id(text.as_str()) {
            Some(id) => Ok(id),
            None => Err(KeyError::InvalidRepoId),
        },
    }
}

/// The number of the repository that a line of a key file names.
pub fn extract_repo_id_from_key(key: &str) -> (r: Result<i32, KeyError>)
    ensures
        r == repo_id_of(
            pattern_compiles(REPO_ID_PATTERN@),
            pattern_group(REPO_ID_PATTERN@, key@, 1),
        ),
{
    if !regex_compiles(REPO_ID_PATTERN) {
        return Err(KeyError::BadPattern);
    }
    repo_id_from_capture(regex_capture(REPO_ID_PATTERN, key, 1))
}

/// The blobstore key that a line holds, given whether the pattern for it
/// compiles and what its first group captured.
pub open spec fn blobstore_key_of(compiles: bool, capture: Option<Option<Seq<char>>>) -> Result<
    Seq<char>,
    KeyError,
> {
    if !compiles {
        Err(KeyError::BadPattern)
    } else {
        match capture {
            None => Err(KeyError::NoCapture),
            Some(None) => Ok(Seq::<char>::empty()),
            Some(Some(text)) => Ok(text),
        }
    }
}

/// The characters of a key, or the error.
pub open spec fn key_view(r: Result<String, KeyError>) -> Result<Seq<char>, KeyError> {
    match r {
        Ok(text) => Ok(text@),
        Err(e) => Err(e),
    }
}

/// The blobstore key that the captured text is.
pub fn blobstore_key_from_capture(capture: Option<Option<String>>) -> (r: Result<String, KeyError>)
    ensures
        key_view(r) == blobstore_key_of(true, capture_view(capture)),
{
    match capture {
        None => Err(KeyError::NoCapture),
        Some(None) => Ok(String::new()),
        Some(Some(text)) => Ok(text),
    }
}

/// The blobstore key that a line of a key file holds: the line from the
/// last `repo` that is followed by a number and one more character.
pub fn extract_blobstore_key_from(key: &str) -> (r: Result<String, KeyError>)
    ensures
        key_view(r) == blobstore_key_of(
            pattern_compiles(BLOBSTORE_KEY_PATTERN@),
            pattern_group(BLOBSTORE_KEY_PATTERN@, key@, 1),
        ),
{
    if !regex_compiles(BLOBSTORE_KEY_PATTERN) {
        return Err(KeyError::BadPattern);
    }
    blobstore_key_from_capture(regex_capture(BLOBSTORE_KEY_PATTERN, key, 1))
}

/// Whether the key may be unlinked: the pattern given for that is a regular
/// expression and matches the key.
pub fn sanitise_check(sanitise_regex: &str, key: &str) -> (ok: bool)
    ensures
        ok == (pattern_compiles(sanitise_regex@) && pattern_matches(sanitise_regex@, key@)),
{
    if !regex_compiles(sanitise_regex) {
        return false;
    }
    regex_is_match(sanitise_regex, key)
}

/// What is done with one line of a key file.
#[derive(Clone, Debug, PartialEq, Eq)]
pub enum KeyPlan {
    /// The line holds no key: it is skipped.
    Skip,
    /// The key does not pass the check: nothing may be unlinked.
    Refuse { blobstore_key: String },
    /// The key is printed only.
    Print,
    /// The key is unlinked from the blobstores of the repository.
    Unlink { repo_id: i32, blobstore_key: String },
}

/// What is done with a line, given what was read out of it and whether the
/// key passed the check.
pub open spec fn plan_of(
    repo_id: Result<i32, KeyError>,
    blobstore_key: Result<String, KeyError>,
    sane: bool,
    dry_run: bool,
) -> KeyPlan {
    match (repo_id, blobstore_key) {
        (Ok(id), Ok(key)) => {
            if !sane {
                KeyPlan::Refuse { blobstore_key: key }
            } else if dry_run {
                KeyPlan::Print
            } else {
                KeyPlan::Unlink { repo_id: id, blobstore_key: key }
            }
        },
        _ => KeyPlan::Skip,
    }
}

/// Decides what is done with a line, given what was read out of it and
/// whether the key passed the check.
pub fn plan_from(
    repo_id: Result<i32, KeyError>,
    blobstore_key: Result<String, KeyError>,
    sane: bool,
    dry_run: bool,
) -> (plan: KeyPlan)
    ensures
        plan == plan_of(repo_id, blobstore_key, sane, dry_run),
{
    match (repo_id, blobstore_key) {
        (Ok(id), Ok(key)) => {
            if !sane {
                KeyPlan::Refuse { blobstore_key: key }
            } else if dry_run {
                KeyPlan::Print
            } else {
                KeyPlan::Unlink { repo_id: id, blobstore_key: key }
            }
        },
        _ => KeyPlan::Skip,
    }
}

/// What is done with one line of a key file: a line that holds no key is
/// skipped, a key that does not pass the check is refused, and a key that
/// passes is printed or unlinked.
pub fn plan_for_key(args: &CommandArgs, key: &str) -> (plan: KeyPlan)
    ensures
        plan is Skip <==> (repo_id_of(
            pattern_compiles(REPO_ID_PATTERN@),
            pattern_group(REPO_ID_PATTERN@, key@, 1),
        ) is Err || blobstore_key_of(
            pattern_compiles(BLOBSTORE_KEY_PATTERN@),
            pattern_group(BLOBSTORE_KEY_PATTERN@, key@, 1),
        ) is Err),
        plan matches KeyPlan::Unlink { repo_id, blobstore_key } ==> !args.dry_run && Ok::<
            i32,
            KeyError,
        >(repo_id) == repo_id_of(
            pattern_compiles(REPO_ID_PATTERN@),
            pattern_group(REPO_ID_PATTERN@, key@, 1),
        ) && pattern_compiles(args.sanitise_regex@) && pattern_matches(
            args.sanitise_regex@,
            blobstore_key@,
        ),
        plan is Print ==> args.dry_run,
        plan matches KeyPlan::Refuse { blobstore_key } ==> !(pattern_compiles(args.sanitise_regex@)
            && pattern_matches(args.sanitise_regex@, blobstore_key@)),
{
    let repo_id = extract_repo_id_from_key(key);
    let blobstore_key = extract_blobstore_key_from(key);
    let sane = match &blobstore_key {
        Ok(text) => sanitise_check(args.sanitise_regex.as_str(), text.as_str()),
        Err(_) => false,
    };
    plan_from(repo_id, blobstore_key, sane, args.dry_run)
}

/// Whether no blobstore held the key: every one of them failed to unlink it.
pub fn no_blobstore_had_key(num_errors: usize, num_blobstores: usize) -> (none: bool)
    ensures
        none == (num_errors == num_blobstores),
{
    num_errors == num_blobstores
}

} // verus!
