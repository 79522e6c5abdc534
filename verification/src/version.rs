//! Which plan formats are accepted, and which versions are newer than what was tested.

use vstd::prelude::*;

use crate::parser::{Plan, State};
use crate::text;
use crate::text::{
    characters, contains_text, debug_text, decimal_text, digits_end, find_char, owned, parse_number,
    text_of, word_end, NumberError,
};

verus! {

/// Highest plan format tested. Its major version is the parser's concern.
pub const MAX_KNOWN_FORMAT: &'static str = "1.2";

/// Highest OpenTofu version tested, by its first two numbers.
pub const MAX_TOFU_MAJOR: u64 = 1;

pub const MAX_TOFU_MINOR: u64 = 9;

/// Highest Terraform version tested, by its first two numbers.
pub const MAX_TERRAFORM_MAJOR: u64 = 1;

pub const MAX_TERRAFORM_MINOR: u64 = 10;

// ── Accepted formats ─────────────────────────────────────────────────────────

/// Why a format version is refused.
#[derive(Debug, Clone)]
pub enum VersionError {
    /// The text before the first dot is no number.
    Malformed { version: String, reason: NumberError },
    /// The major version of a plan is not supported.
    UnsupportedPlan { version: String, major: u64 },
    /// The major version of a state is not supported.
    UnsupportedState { version: String, major: u64 },
}

/// The major version: the number before the first dot, or in the whole text if there is none.
pub open spec fn major_of(version: Seq<char>) -> Result<u64, NumberError> {
    text::number_in(version.take(text::position(version, '.')))
}

/// Plans of major version 1 are accepted.
pub open spec fn accepts_plan(version: Seq<char>) -> bool {
    major_of(version) matches Ok(major) && major == 1
}

/// States of major version 0 or 1 are accepted.
pub open spec fn accepts_state(version: Seq<char>) -> bool {
    major_of(version) matches Ok(major) && (major == 0 || major == 1)
}

/// `e` says that the major version is malformed, and why.
pub open spec fn says_malformed(e: VersionError, version: Seq<char>) -> bool {
    e matches VersionError::Malformed { version: v, reason } && v@ == version && major_of(version)
        == Err::<u64, NumberError>(reason)
}

/// The number before the first dot of a version.
pub fn parse_major_version(version: &str) -> (r: Result<u64, VersionError>)
    ensures
        match r {
            Ok(major) => major_of(version@) == Ok::<u64, NumberError>(major),
            Err(e) => says_malformed(e, version@),
        },
{
    let chars = characters(version);
    let dot = find_char(&chars, 0, '.');
    assert(chars@.skip(0) =~= chars@);
    assert(chars@.subrange(0, dot as int) =~= version@.take(dot as int));
    match parse_number(&chars, 0, dot) {
        Ok(major) => Ok(major),
        Err(reason) => Err(VersionError::Malformed { version: owned(version), reason }),
    }
}

/// Plans of major version 1 are accepted.
pub fn validate_plan_format_version(version: &str) -> (r: Result<(), VersionError>)
    ensures
        r is Ok <==> accepts_plan(version@),
        r matches Err(e) ==> match major_of(version@) {
            Ok(n) => e matches VersionError::UnsupportedPlan { version: v, major } && v@ == version@
                && major == n,
            Err(_) => says_malformed(e, version@),
        },
{
    match parse_major_version(version) {
        Ok(major) => {
            if major != 1 {
                Err(VersionError::UnsupportedPlan { version: owned(version), major })
            } else {
                Ok(())
            }
        },
        Err(e) => Err(e),
    }
}

/// States of major version 0 or 1 are accepted: OpenTofu writes "0.2", the format's documentation
/// "1.0".
pub fn validate_state_format_version(version: &str) -> (r: Result<(), VersionError>)
    ensures
        r is Ok <==> accepts_state(version@),
        r matches Err(e) ==> match major_of(version@) {
            Ok(n) => e matches VersionError::UnsupportedState { version: v, major } && v@
                == version@ && major == n,
            Err(_) => says_malformed(e, version@),
        },
{
    match parse_major_version(version) {
        Ok(major) => {
            if major != 0 && major != 1 {
                Err(VersionError::UnsupportedState { version: owned(version), major })
            } else {
                Ok(())
            }
        },
        Err(e) => Err(e),
    }
}

/// A plan passes as it is where its format version is accepted.
pub fn accept_plan(plan: Plan) -> (r: Result<Plan, VersionError>)
    ensures
        r is Ok <==> accepts_plan(plan.format_version@),
        match r {
            Ok(accepted) => accepted == plan,
            Err(e) => match major_of(plan.format_version@) {
                Ok(n) => e matches VersionError::UnsupportedPlan { version, major } && version@
                    == plan.format_version@ && major == n,
                Err(_) => says_malformed(e, plan.format_version@),
            },
        },
{
    match validate_plan_format_version(plan.format_version.as_str()) {
        Ok(_) => Ok(plan),
        Err(e) => Err(e),
    }
}

/// The state's format version is accepted, or there is none.
pub open spec fn accepts_state_version(version: Option<String>) -> bool {
    version matches Some(v) ==> accepts_state(v@)
}

/// A state passes as it is where its format version is accepted. Terraform does not promise that
/// there is one: without it, the state passes.
pub fn accept_state(state: State) -> (r: Result<State, VersionError>)
    ensures
        r is Ok <==> accepts_state_version(state.format_version),
        match r {
            Ok(accepted) => accepted == state,
            Err(e) => state.format_version matches Some(v) && match major_of(v@) {
                Ok(n) => e matches VersionError::UnsupportedState { version, major } && version@
                    == v@ && major == n,
                Err(_) => says_malformed(e, v@),
            },
        },
{
    let verdict = match &state.format_version {
        Some(version) => validate_state_format_version(version.as_str()),
        None => Ok(()),
    };
    match verdict {
        Ok(_) => Ok(state),
        Err(e) => Err(e),
    }
}

/// The text of a version error.
pub open spec fn version_error_text(e: VersionError) -> Seq<char> {
    match e {
        VersionError::Malformed { version, reason } => "malformed major version in "@
            + text::debug_form(version@),
        VersionError::UnsupportedPlan { version, major } => "unsupported plan format_version "@
            + text::debug_form(version@) + ": expected major version 1, got "@ + text::decimal(
            major as nat,
        ),
        VersionError::UnsupportedState { version, major } => "unsupported state format_version "@
            + text::debug_form(version@) + ": expected major version 0 or 1, got "@ + text::decimal(
            major as nat,
        ),
    }
}

/// What is wrong with a number.
pub open spec fn number_error_text(e: NumberError) -> Seq<char> {
    match e {
        NumberError::Empty => "cannot parse integer from empty string"@,
        NumberError::InvalidDigit => "invalid digit found in string"@,
        NumberError::TooLarge => "number too large to fit in target type"@,
    }
}

impl VersionError {
    /// The error in words.
    pub fn message(&self) -> (text: String)
        ensures
            text@ == version_error_text(*self),
    {
        match self {
            VersionError::Malformed { version, .. } => {
                let mut text = owned("malformed major version in ");
                text.append(debug_text(version.as_str()).as_str());
                text
            },
            VersionError::UnsupportedPlan { version, major } => {
                let mut text = owned("unsupported plan format_version ");
                text.append(debug_text(version.as_str()).as_str());
                text.append(": expected major version 1, got ");
                text.append(decimal_text(*major).as_str());
                text
            },
            VersionError::UnsupportedState { version, major } => {
                let mut text = owned("unsupported state format_version ");
                text.append(debug_text(version.as_str()).as_str());
                text.append(": expected major version 0 or 1, got ");
                text.append(decimal_text(*major).as_str());
                text
            },
        }
    }

    /// What lies behind the error, in words.
    pub fn cause(&self) -> (text: Option<&'static str>)
        ensures
            match *self {
                VersionError::Malformed { version, reason } => text matches Some(t) && t@
                    == number_error_text(reason),
                _ => text is None,
            },
    {
        match self {
            VersionError::Malformed { reason, .. } => Some(
                match reason {
                    NumberError::Empty => "cannot parse integer from empty string",
                    NumberError::InvalidDigit => "invalid digit found in string",
                    NumberError::TooLarge => "number too large to fit in target type",
                },
            ),
            _ => None,
        }
    }
}

/// A version accepted of a plan is accepted of a state.
pub proof fn plan_versions_are_state_versions(version: Seq<char>)
    requires
        accepts_plan(version),
    ensures
        accepts_state(version),
{
}

// ── Newer than tested ────────────────────────────────────────────────────────

/// A tool found on this machine.
#[derive(Debug)]
pub struct BinaryInfo {
    pub name: String,
    pub version: String,
}

#[derive(Debug)]
pub enum VersionWarning {
    /// The plan format's minor version exceeds the tested one: continue, but warn.
    FormatMinorAhead { found: String },
    /// The tool's version is newer than the tested one: continue, but warn.
    BinaryAhead { name: String, found: String, tested_max: String },
}

/// The warning of a plan format that is newer than tested.
pub open spec fn format_warning_text(found: Seq<char>) -> Seq<char> {
    "warning: plan format_version "@ + found + " is newer than tested "@ + MAX_KNOWN_FORMAT@
        + " — unknown fields will be ignored; consider updating eia"@
}

/// The warning of a tool that is newer than tested.
pub open spec fn binary_warning_text(
    name: Seq<char>,
    found: Seq<char>,
    tested_max: Seq<char>,
) -> Seq<char> {
    "warning: "@ + name + " "@ + found + " is newer than tested "@ + tested_max
        + ".x — plan output may contain fields eia does not yet handle"@
}

/// The text of a warning.
pub open spec fn warning_text(w: VersionWarning) -> Seq<char> {
    match w {
        VersionWarning::FormatMinorAhead { found } => format_warning_text(found@),
        VersionWarning::BinaryAhead { name, found, tested_max } => binary_warning_text(
            name@,
            found@,
            tested_max@,
        ),
    }
}

impl VersionWarning {
    /// The warning in words.
    pub fn message(&self) -> (text: String)
        ensures
            text@ == warning_text(*self),
    {
        match self {
            VersionWarning::FormatMinorAhead { found } => {
                let mut text = owned("warning: plan format_version ");
                text.append(found.as_str());
                text.append(" is newer than tested ");
                text.append(MAX_KNOWN_FORMAT);
                text.append(" — unknown fields will be ignored; consider updating eia");
                text
            },
            VersionWarning::BinaryAhead { name, found, tested_max } => {
                let mut text = owned("warning: ");
                text.append(name.as_str());
                text.append(" ");
                text.append(found.as_str());
                text.append(" is newer than tested ");
                text.append(tested_max.as_str());
                text.append(".x — plan output may contain fields eia does not yet handle");
                text
            },
        }
    }
}

/// The minor version: the number between the first dot and the next, or the end.
pub open spec fn minor_of(version: Seq<char>) -> Option<u64> {
    let dot = text::position(version, '.');
    if dot < version.len() {
        let rest = version.skip(dot + 1);
        match text::number_in(rest.take(text::position(rest, '.'))) {
            Ok(minor) => Some(minor),
            Err(_) => None,
        }
    } else {
        None
    }
}

/// The format has a minor version, and it is above the tested one.
pub open spec fn format_is_ahead(version: Seq<char>) -> bool {
    match (minor_of(version), minor_of(MAX_KNOWN_FORMAT@)) {
        (Some(found), Some(known)) => found > known,
        _ => false,
    }
}

/// The number between the first dot of a version and the next, or the end.
pub fn parse_minor_version(version: &str) -> (minor: Option<u64>)
    ensures
        minor == minor_of(version@),
{
    let chars = characters(version);
    let dot = find_char(&chars, 0, '.');
    assert(chars@.skip(0) =~= chars@);
    if dot == chars.len() {
        return None;
    }
    let end = find_char(&chars, dot + 1, '.');
    proof {
        let rest = version@.skip(dot + 1);
        assert(chars@.subrange(dot + 1, end as int) =~= rest.take(text::position(rest, '.')));
    }
    match parse_number(&chars, dot + 1, end) {
        Ok(minor) => Some(minor),
        Err(_) => None,
    }
}

/// Warns of a plan format whose minor version is above the one tested.
pub fn check_format_version(format_version: &str) -> (warning: Option<VersionWarning>)
    ensures
        warning is Some <==> format_is_ahead(format_version@),
        warning matches Some(w) ==> (w matches VersionWarning::FormatMinorAhead { found } && found@
            == format_version@),
{
    match (parse_minor_version(format_version), parse_minor_version(MAX_KNOWN_FORMAT)) {
        (Some(found), Some(known)) => {
            if found > known {
                Some(VersionWarning::FormatMinorAhead { found: owned(format_version) })
            } else {
                None
            }
        },
        _ => None,
    }
}

/// The tested plan format has the minor version 2.
pub proof fn known_format_minor()
    ensures
        minor_of(MAX_KNOWN_FORMAT@) == Some(2u64),
{
    reveal_strlit("1.2");
    let v = MAX_KNOWN_FORMAT@;
    text::position_is(v, '.', 1);
    let rest = v.skip(2);
    assert(rest =~= seq!['2']);
    text::position_is(rest, '.', 1);
    assert(rest.take(1) =~= seq!['2']);
    reveal_with_fuel(text::leading_digits, 2);
    reveal_with_fuel(text::digits_value, 2);
    assert(seq!['2'].skip(1) =~= Seq::empty());
    assert(seq!['2'].take(1) =~= seq!['2']);
    assert(seq!['2'].drop_last() =~= Seq::empty());
}

/// The text of a release version.
pub open spec fn release_text(major: u64, minor: u64, patch: u64) -> Seq<char> {
    text::decimal(major as nat) + "."@ + text::decimal(minor as nat) + "."@ + text::decimal(
        patch as nat,
    )
}

/// The version starts with this release, and nothing, `-` or `+` follows.
pub open spec fn starts_release(version: Seq<char>, major: u64, minor: u64, patch: u64) -> bool {
    let release = release_text(major, minor, patch);
    &&& release.is_prefix_of(version)
    &&& release.len() < version.len() ==> version[release.len() as int] == '-'
        || version[release.len() as int] == '+'
}

/// A version starts with one release at most.
pub proof fn release_is_told_once(
    version: Seq<char>,
    major: u64,
    minor: u64,
    patch: u64,
    other_major: u64,
    other_minor: u64,
    other_patch: u64,
)
    requires
        starts_release(version, major, minor, patch),
        starts_release(version, other_major, other_minor, other_patch),
    ensures
        major == other_major,
        minor == other_minor,
        patch == other_patch,
{
    release_is_told(version, major, minor, patch);
    release_is_told(version, other_major, other_minor, other_patch);
}

/// Where the second number of a version starts.
spec fn second_part(version: Seq<char>) -> Seq<char> {
    version.skip(text::leading_digits(version) + 1)
}

/// The numbers of the release that a version starts with are told by its digits.
#[verifier::spinoff_prover]
proof fn release_is_told(version: Seq<char>, major: u64, minor: u64, patch: u64)
    requires
        starts_release(version, major, minor, patch),
    ensures
        leading_value(version) == major,
        leading_value(second_part(version)) == minor,
        leading_value(second_part(second_part(version))) == patch,
{
    reveal_strlit(".");
    let a = text::decimal(major as nat);
    let b = text::decimal(minor as nat);
    let c = text::decimal(patch as nat);
    let release = release_text(major, minor, patch);
    let second = version.skip(a.len() as int + 1);
    let third = second.skip(b.len() as int + 1);
    assert(release =~= a + seq!['.'] + b + seq!['.'] + c);
    assert forall|i: int| 0 <= i < release.len() implies version[i] == release[i] by {}
    assert(version[a.len() as int] == release[a.len() as int]);
    assert(a =~= version.take(a.len() as int));
    text::leading_number_is(version, major as nat);
    assert(second[b.len() as int] == release[a.len() as int + 1 + b.len()]);
    assert(b =~= second.take(b.len() as int)) by {
        assert forall|i: int| 0 <= i < b.len() implies b[i] == second[i] by {
            assert(release[a.len() + 1 + i] == b[i]);
        }
    }
    text::leading_number_is(second, minor as nat);
    assert(c =~= third.take(c.len() as int)) by {
        assert forall|i: int| 0 <= i < c.len() implies c[i] == third[i] by {
            assert(release[a.len() + 1 + b.len() + 1 + i] == c[i]);
        }
    }
    if c.len() < third.len() {
        assert(third[c.len() as int] == version[release.len() as int]);
    }
    text::leading_number_is(third, patch as nat);
}

/// The number that the digits at the start of a text write.
spec fn leading_value(s: Seq<char>) -> nat {
    text::digits_value(s.take(text::leading_digits(s)))
}

/// Major, minor and patch number of a semantic version, nothing if the text is none.
pub uninterp spec fn semver_numbers(version: Seq<char>) -> Option<(u64, u64, u64)>;

/// `semver::Version::parse`: the three numbers of the version, nothing where it reports an error.
/// The text of a release is read back. Whatever is read, the text starts with its release, and
/// what follows starts with `-` or `+`. Which such endings are refused is not spelled out.
#[verifier::external_body]
pub(crate) fn parse_semver(version: &str) -> (numbers: Option<(u64, u64, u64)>)
    ensures
        numbers == semver_numbers(version@),
        forall|major: u64, minor: u64, patch: u64|
            version@ == #[trigger] release_text(major, minor, patch) ==> numbers == Some(
                (major, minor, patch),
            ),
        numbers matches Some((major, minor, patch)) ==> starts_release(
            version@,
            major,
            minor,
            patch,
        ),
{
    match semver::Version::parse(version) {
        Ok(v) => Some((v.major, v.minor, v.patch)),
        Err(_) => None,
    }
}

/// The tested ceiling for a tool, by its first two numbers: OpenTofu's if the name says so,
/// Terraform's otherwise.
pub open spec fn tested_ceiling(name: Seq<char>) -> (u64, u64) {
    if text::holds(name, "tofu"@) {
        (MAX_TOFU_MAJOR, MAX_TOFU_MINOR)
    } else {
        (MAX_TERRAFORM_MAJOR, MAX_TERRAFORM_MINOR)
    }
}

/// A version of these numbers, if there are any, is newer than the tested ceiling: its major is
/// higher, or the same with a higher minor.
pub open spec fn is_ahead(name: Seq<char>, numbers: Option<(u64, u64, u64)>) -> bool {
    numbers matches Some((major, minor, patch)) && (major > tested_ceiling(name).0 || (major
        == tested_ceiling(name).0 && minor > tested_ceiling(name).1))
}

/// The tested ceiling for a tool, in writing.
pub open spec fn ceiling_text(name: Seq<char>) -> Seq<char> {
    text::decimal(tested_ceiling(name).0 as nat) + "."@ + text::decimal(
        tested_ceiling(name).1 as nat,
    )
}

/// `w` names the tool, its version and the tested ceiling.
pub open spec fn names_binary(w: VersionWarning, info: BinaryInfo) -> bool {
    w matches VersionWarning::BinaryAhead { name, found, tested_max } && name@ == info.name@
        && found@ == info.version@ && tested_max@ == ceiling_text(info.name@)
}

/// Warns of a tool whose version has these numbers, if they are above what was tested.
pub fn binary_warning(info: &BinaryInfo, numbers: Option<(u64, u64, u64)>) -> (warning: Option<
    VersionWarning,
>)
    ensures
        warning is Some <==> is_ahead(info.name@, numbers),
        warning matches Some(w) ==> names_binary(w, *info),
{
    let is_tofu = contains_text(info.name.as_str(), "tofu");
    let max_major: u64 = if is_tofu { MAX_TOFU_MAJOR } else { MAX_TERRAFORM_MAJOR };
    let max_minor: u64 = if is_tofu { MAX_TOFU_MINOR } else { MAX_TERRAFORM_MINOR };
    match numbers {
        Some((major, minor, _)) => {
            if major > max_major || (major == max_major && minor > max_minor) {
                let mut tested_max = decimal_text(max_major);
                tested_max.append(".");
                tested_max.append(decimal_text(max_minor).as_str());
                Some(
                    VersionWarning::BinaryAhead {
                        name: info.name.clone(),
                        found: info.version.clone(),
                        tested_max,
                    },
                )
            } else {
                None
            }
        },
        None => None,
    }
}

/// Warns of a tool whose version is a semantic version newer than what was tested. Whatever numbers
/// decide, the version starts with their release.
pub fn check_binary_version(info: &BinaryInfo) -> (warning: Option<VersionWarning>)
    ensures
        warning is Some <==> is_ahead(info.name@, semver_numbers(info.version@)),
        warning matches Some(w) ==> names_binary(w, *info),
        forall|major: u64, minor: u64, patch: u64|
            info.version@ == #[trigger] release_text(major, minor, patch) ==> (warning is Some
                <==> is_ahead(info.name@, Some((major, minor, patch)))),
        semver_numbers(info.version@) matches Some((major, minor, patch)) ==> starts_release(
            info.version@,
            major,
            minor,
            patch,
        ),
        forall|major: u64, minor: u64, patch: u64| #[trigger]
            starts_release(info.version@, major, minor, patch) && warning is Some ==> is_ahead(
                info.name@,
                Some((major, minor, patch)),
            ),
{
    let numbers = parse_semver(info.version.as_str());
    proof {
        if let Some((a, b, c)) = numbers {
            assert forall|major: u64, minor: u64, patch: u64| #[trigger]
                starts_release(info.version@, major, minor, patch) implies (major, minor, patch)
                == (a, b, c) by {
                release_is_told_once(info.version@, a, b, c, major, minor, patch);
            }
        }
    }
    binary_warning(info, numbers)
}

/// The warnings for a plan format and the tool that was found, if one was: those of them that are
/// newer than tested.
pub open spec fn version_warnings(format_version: Seq<char>, detected: Option<BinaryInfo>) -> Seq<
    Seq<char>,
> {
    (if format_is_ahead(format_version) {
        seq![format_warning_text(format_version)]
    } else {
        Seq::empty()
    }) + (match detected {
        Some(info) => if is_ahead(info.name@, semver_numbers(info.version@)) {
            seq![binary_warning_text(info.name@, info.version@, ceiling_text(info.name@))]
        } else {
            Seq::empty()
        },
        None => Seq::empty(),
    })
}

/// The lines that warn of what is newer than tested. They are all that a detected tool changes.
pub fn warning_lines(format_version: &str, detected: &Option<BinaryInfo>) -> (lines: Vec<String>)
    ensures
        text::texts(lines@) == version_warnings(format_version@, *detected),
{
    let mut lines: Vec<String> = Vec::new();
    if let Some(warning) = check_format_version(format_version) {
        lines.push(warning.message());
    }
    if let Some(info) = detected {
        if let Some(warning) = check_binary_version(info) {
            lines.push(warning.message());
        }
    }
    assert(text::texts(lines@) =~= version_warnings(format_version@, *detected));
    lines
}

// ── Version command output ───────────────────────────────────────────────────

/// The first line of a text, without its line break.
pub open spec fn first_line(s: Seq<char>) -> Seq<char> {
    s.take(text::position(s, '\n'))
}

/// `s` has the form MAJOR.MINOR.PATCH: three times digits, with a dot between them, and then the
/// end, `-` or `+`.
pub open spec fn is_release_form(s: Seq<char>) -> bool {
    let a = text::leading_digits(s);
    let second = s.skip(a + 1);
    let b = text::leading_digits(second);
    let third = second.skip(b + 1);
    let c = text::leading_digits(third);
    &&& a > 0 && a < s.len() && s[a] == '.'
    &&& b > 0 && b < second.len() && second[b] == '.'
    &&& c > 0
    &&& c < third.len() ==> third[c] == '-' || third[c] == '+'
}

/// The word has the form vMAJOR.MINOR.PATCH.
pub open spec fn is_version_word(word: Seq<char>) -> bool {
    word.len() > 0 && word[0] == 'v' && is_release_form(word.skip(1))
}

/// The first version word.
pub open spec fn first_version_word(words: Seq<Seq<char>>) -> Option<Seq<char>>
    decreases words.len(),
{
    if words.len() == 0 {
        None
    } else if is_version_word(words[0]) {
        Some(words[0])
    } else {
        first_version_word(words.skip(1))
    }
}

/// The version that the output of a version command tells: the first version word of its first
/// line, without its `v`.
pub open spec fn version_told(output: Seq<char>) -> Option<Seq<char>> {
    match first_version_word(text::words(first_line(output))) {
        Some(word) => Some(word.skip(1)),
        None => None,
    }
}

/// Whether `chars[from..to]` has the form MAJOR.MINOR.PATCH.
fn has_release_form(chars: &Vec<char>, from: usize, to: usize) -> (form: bool)
    requires
        from <= to <= chars@.len(),
    ensures
        form == is_release_form(chars@.subrange(from as int, to as int)),
{
    let ghost s = chars@.subrange(from as int, to as int);
    let a = digits_end(chars, from, to);
    if a == from || a == to || chars[a] != '.' {
        return false;
    }
    let b = digits_end(chars, a + 1, to);
    proof {
        assert(s.skip(a - from + 1) =~= chars@.subrange(a + 1, to as int));
    }
    if b == a + 1 || b == to || chars[b] != '.' {
        return false;
    }
    let c = digits_end(chars, b + 1, to);
    proof {
        assert(chars@.subrange(a + 1, to as int).skip(b - a) =~= chars@.subrange(
            b + 1,
            to as int,
        ));
    }
    c > b + 1 && (c == to || chars[c] == '-' || chars[c] == '+')
}

/// Extract the first "vMAJOR.MINOR.PATCH" token from version command output.
pub fn extract_semver(output: &str) -> (version: Option<String>)
    ensures
        text::opt_text(version) == version_told(output@),
{
    let chars = characters(output);
    let end = find_char(&chars, 0, '\n');
    assert(chars@.skip(0) =~= chars@);
    let ghost line = first_line(output@);
    assert(line =~= chars@.subrange(0, end as int));
    let mut i: usize = 0;
    while i < end
        invariant
            i <= end <= chars@.len(),
            chars@ == output@,
            line == first_line(output@),
            line == chars@.subrange(0, end as int),
            first_version_word(text::words(line)) == first_version_word(
                text::words(chars@.subrange(i as int, end as int)),
            ),
        decreases end - i,
    {
        let ghost here = chars@.subrange(i as int, end as int);
        if text::is_white_space(chars[i]) {
            assert(here.skip(1) =~= chars@.subrange(i + 1, end as int));
            i += 1;
        } else {
            let stop = word_end(&chars, i, end);
            proof {
                let word = chars@.subrange(i as int, stop as int);
                text::word_length_within(here);
                assert(here.take(stop - i) =~= word);
                assert(here.skip(stop - i) =~= chars@.subrange(stop as int, end as int));
                let rest = text::words(chars@.subrange(stop as int, end as int));
                assert((seq![word] + rest).skip(1) =~= rest);
                assert((seq![word] + rest)[0] == word);
                assert(word.skip(1) =~= chars@.subrange(i + 1, stop as int));
            }
            if chars[i] == 'v' && has_release_form(&chars, i + 1, stop) {
                return Some(text_of(&chars, i + 1, stop));
            }
            i = stop;
        }
    }
    assert(chars@.subrange(i as int, end as int) =~= Seq::empty());
    None
}

// ── Probing for tools ────────────────────────────────────────────────────────

/// What to do after a reply of a probe.
#[derive(Debug)]
pub enum ProbeStep {
    /// A tool was found.
    Found(BinaryInfo),
    /// That one found nothing, but others are still out.
    Wait { pending: usize },
    /// None found anything.
    GiveUp,
}

/// The first probe that finds a tool counts. One that finds nothing leaves the word to those that
/// are still out; `pending` of them were, with this one.
pub fn after_reply(pending: usize, reply: Option<BinaryInfo>) -> (step: ProbeStep)
    ensures
        match reply {
            Some(info) => step == ProbeStep::Found(info),
            None => if pending > 1 {
                step == ProbeStep::Wait { pending: (pending - 1) as usize }
            } else {
                step is GiveUp
            },
        },
{
    match reply {
        Some(info) => ProbeStep::Found(info),
        None => if pending > 1 {
            ProbeStep::Wait { pending: pending - 1 }
        } else {
            ProbeStep::GiveUp
        },
    }
}

// ── What holds of versions ───────────────────────────────────────────────────

proof fn major_is_before_the_dot(major: u64, rest: Seq<char>)
    ensures
        major_of(text::decimal(major as nat)) == Ok::<u64, NumberError>(major),
        major_of(text::decimal(major as nat) + seq!['.'] + rest) == Ok::<u64, NumberError>(major),
{
    let d = text::decimal(major as nat);
    let s = d + seq!['.'] + rest;
    text::decimal_reads_back(major as nat);
    text::numerals_read_back(major as nat, '.', rest);
    assert forall|i: int| 0 <= i < d.len() implies #[trigger] d[i] != '.' && s[i] != '.' by {
        assert(text::is_digit(d[i]));
        assert(s[i] == d[i]);
    }
    text::position_is(d, '.', d.len() as int);
    assert(d.take(d.len() as int) =~= d);
    assert(s[d.len() as int] == '.');
    text::position_is(s, '.', d.len() as int);
    assert(s.take(d.len() as int) =~= d);
}

/// Plans are accepted by their major version alone, which has to be 1, and states by theirs, which
/// has to be 0 or 1: whatever follows the first dot has no say. A version without digits at its
/// start is accepted of neither.
pub proof fn majors_decide(major: u64, rest: Seq<char>, c: char)
    ensures
        accepts_plan(text::decimal(major as nat) + seq!['.'] + rest) <==> major == 1,
        accepts_plan(text::decimal(major as nat)) <==> major == 1,
        accepts_state(text::decimal(major as nat) + seq!['.'] + rest) <==> major <= 1,
        accepts_state(text::decimal(major as nat)) <==> major <= 1,
        !accepts_plan(Seq::empty()) && !accepts_state(Seq::empty()),
        !text::is_digit(c) && c != '+' ==> !accepts_plan(seq![c] + rest) && !accepts_state(
            seq![c] + rest,
        ),
{
    major_is_before_the_dot(major, rest);
    assert(text::position(Seq::<char>::empty(), '.') == 0);
    assert(Seq::<char>::empty().take(0) =~= Seq::empty());
    text::numerals_read_back(0, c, Seq::empty());
    if !text::is_digit(c) && c != '+' {
        let s = seq![c] + rest;
        let k = text::position(s, '.');
        if c == '.' {
            text::position_is(s, '.', 0);
            assert(s.take(0) =~= Seq::empty());
        } else {
            position_within(s.skip(1), '.');
            assert(s.skip(1) =~= rest);
            assert(k == 1 + text::position(rest, '.'));
            let few = rest.take(k - 1);
            assert(s.take(k) =~= seq![c] + few);
            text::numerals_read_back(0, c, few);
        }
    }
}

proof fn position_within(s: Seq<char>, c: char)
    ensures
        0 <= text::position(s, c) <= s.len(),
    decreases s.len(),
{
    if s.len() > 0 && s[0] != c {
        position_within(s.skip(1), c);
    }
}

/// A plan format is ahead by its minor version alone, which has to be above 2: neither the major
/// version nor what follows the next dot has a say. A format without a dot is never ahead.
pub proof fn minors_decide(before: Seq<char>, minor: u64, rest: Seq<char>)
    requires
        !before.contains('.'),
    ensures
        format_is_ahead(before + seq!['.'] + text::decimal(minor as nat)) <==> minor > 2,
        format_is_ahead(before + seq!['.'] + text::decimal(minor as nat) + seq!['.'] + rest)
            <==> minor > 2,
        !format_is_ahead(before),
{
    known_format_minor();
    let d = text::decimal(minor as nat);
    let n = before.len() as int;
    let short = before + seq!['.'] + d;
    let long = short + seq!['.'] + rest;
    assert forall|i: int| 0 <= i < n implies #[trigger] before[i] != '.' by {
        assert(before.contains(before[i]));
    }
    text::position_is(before, '.', n);
    assert forall|i: int| 0 <= i < n implies #[trigger] short[i] != '.' by {
        assert(short[i] == before[i]);
    }
    assert forall|i: int| 0 <= i < n implies #[trigger] long[i] != '.' by {
        assert(long[i] == before[i]);
    }
    assert(short[n] == '.' && long[n] == '.');
    text::position_is(short, '.', n);
    text::position_is(long, '.', n);
    assert(short.skip(n + 1) =~= d);
    assert(long.skip(n + 1) =~= d + seq!['.'] + rest);
    major_is_before_the_dot(minor, rest);
}

/// OpenTofu was tested up to 1.9 and any other tool up to 1.10: what is above that is ahead. A
/// version above one that is ahead is ahead too, and patch numbers have no say.
pub proof fn newer_tools_are_ahead(name: Seq<char>, major: u64, minor: u64, patch: u64, other: u64)
    ensures
        text::holds(name, "tofu"@) ==> (is_ahead(name, Some((major, minor, patch))) <==> major > 1
            || (major == 1 && minor > 9)),
        !text::holds(name, "tofu"@) ==> (is_ahead(name, Some((major, minor, patch))) <==> major > 1
            || (major == 1 && minor > 10)),
        is_ahead(name, Some((major, minor, patch))) <==> is_ahead(
            name,
            Some((major, minor, other)),
        ),
        is_ahead(name, Some((major, minor, patch))) && other >= minor ==> is_ahead(
            name,
            Some((major, other, patch)),
        ),
        is_ahead(name, Some((major, minor, patch))) && other >= major ==> is_ahead(
            name,
            Some((other, minor, patch)),
        ),
        !is_ahead(name, None),
        text::holds(name, "tofu"@) ==> ceiling_text(name) == "1.9"@,
        !text::holds(name, "tofu"@) ==> ceiling_text(name) == "1.10"@,
{
    reveal_strlit("1.9");
    reveal_strlit("1.10");
    reveal_strlit(".");
    reveal_with_fuel(text::decimal, 2);
    if text::holds(name, "tofu"@) {
        assert(ceiling_text(name) =~= "1.9"@);
    } else {
        assert(text::decimal(10) =~= seq!['1', '0']);
        assert(ceiling_text(name) =~= "1.10"@);
    }
}

/// There is a warning of the format where it is ahead and one of the detected tool where that is
/// ahead, in this order, and no other; each names the version it found and the one tested.
pub proof fn warnings_name_what_is_ahead(format_version: Seq<char>, info: BinaryInfo)
    ensures
        ({
            let format = "warning: plan format_version "@ + format_version
                + " is newer than tested "@ + "1.2"@
                + " — unknown fields will be ignored; consider updating eia"@;
            let tool = "warning: "@ + info.name@ + " "@ + info.version@ + " is newer than tested "@
                + (if text::holds(info.name@, "tofu"@) {
                "1.9"@
            } else {
                "1.10"@
            }) + ".x — plan output may contain fields eia does not yet handle"@;
            let ahead = is_ahead(info.name@, semver_numbers(info.version@));
            &&& format_is_ahead(format_version) ==> version_warnings(format_version, None) == seq![
                format,
            ]
            &&& !format_is_ahead(format_version) ==> version_warnings(format_version, None).len()
                == 0
            &&& ahead ==> version_warnings(format_version, Some(info)) == version_warnings(
                format_version,
                None,
            ) + seq![tool]
            &&& !ahead ==> version_warnings(format_version, Some(info)) == version_warnings(
                format_version,
                None,
            )
        }),
{
    newer_tools_are_ahead(info.name@, 0, 0, 0, 0);
    let none: Option<BinaryInfo> = None;
    assert(version_warnings(format_version, none) + Seq::empty() =~= version_warnings(
        format_version,
        none,
    ));
}

/// Version errors name the version as it stands, and what was expected and found of its major.
pub proof fn version_errors_name_the_version(version: String, major: u64, reason: NumberError)
    ensures
        version_error_text(VersionError::Malformed { version, reason })
            == "malformed major version in "@ + text::debug_form(version@),
        version_error_text(VersionError::UnsupportedPlan { version, major })
            == "unsupported plan format_version "@ + text::debug_form(version@)
            + ": expected major version 1, got "@ + text::decimal(major as nat),
        version_error_text(VersionError::UnsupportedState { version, major })
            == "unsupported state format_version "@ + text::debug_form(version@)
            + ": expected major version 0 or 1, got "@ + text::decimal(major as nat),
{
}

// ── What holds of version command output ─────────────────────────────────────

/// One digit or more, and nothing else.
pub open spec fn all_digits(s: Seq<char>) -> bool {
    s.len() > 0 && forall|i: int| 0 <= i < s.len() ==> text::is_digit(#[trigger] s[i])
}

/// Nothing, or what starts with `-` or `+`.
pub open spec fn is_ending(s: Seq<char>) -> bool {
    s.len() > 0 ==> s[0] == '-' || s[0] == '+'
}

/// No white space.
pub open spec fn is_unbroken(s: Seq<char>) -> bool {
    forall|i: int| 0 <= i < s.len() ==> !text::is_white(#[trigger] s[i])
}

/// Three numerals of whatever length with a dot between them, and an ending, have the form.
proof fn releases_have_the_form(a: Seq<char>, b: Seq<char>, c: Seq<char>, end: Seq<char>)
    requires
        all_digits(a),
        all_digits(b),
        all_digits(c),
        is_ending(end),
    ensures
        is_release_form(a + seq!['.'] + b + seq!['.'] + c + end),
{
    let s = a + seq!['.'] + b + seq!['.'] + c + end;
    let second = b + seq!['.'] + c + end;
    let third = c + end;
    assert forall|i: int| 0 <= i < a.len() implies text::is_digit(#[trigger] s[i]) by {
        assert(s[i] == a[i]);
    }
    assert(s[a.len() as int] == '.');
    text::leading_digits_are(s, a.len() as int);
    assert(s.skip(a.len() as int + 1) =~= second);
    assert forall|i: int| 0 <= i < b.len() implies text::is_digit(#[trigger] second[i]) by {
        assert(second[i] == b[i]);
    }
    assert(second[b.len() as int] == '.');
    text::leading_digits_are(second, b.len() as int);
    assert(second.skip(b.len() as int + 1) =~= third);
    assert forall|i: int| 0 <= i < c.len() implies text::is_digit(#[trigger] third[i]) by {
        assert(third[i] == c[i]);
    }
    if c.len() < third.len() {
        assert(third[c.len() as int] == end[0]);
    }
    text::leading_digits_are(third, c.len() as int);
}

/// The first version word of two lists is that of the first, or else of the second.
proof fn first_version_word_joins(a: Seq<Seq<char>>, b: Seq<Seq<char>>)
    ensures
        first_version_word(a + b) == (if first_version_word(a) is Some {
            first_version_word(a)
        } else {
            first_version_word(b)
        }),
    decreases a.len(),
{
    if a.len() == 0 {
        assert(a + b =~= b);
    } else {
        assert((a + b)[0] == a[0]);
        assert((a + b).skip(1) =~= a.skip(1) + b);
        first_version_word_joins(a.skip(1), b);
    }
}

proof fn line_is_first(s: Seq<char>)
    requires
        !s.contains('\n'),
    ensures
        first_line(s) == s,
{
    assert forall|i: int| 0 <= i < s.len() implies #[trigger] s[i] != '\n' by {
        assert(s.contains(s[i]));
    }
    text::position_is(s, '\n', s.len() as int);
    assert(s.take(s.len() as int) =~= s);
}

/// Only the first line of the output has a say.
pub proof fn first_lines_decide(line: Seq<char>, rest: Seq<char>)
    requires
        !line.contains('\n'),
    ensures
        version_told(line + seq!['\n'] + rest) == version_told(line),
{
    let s = line + seq!['\n'] + rest;
    let n = line.len() as int;
    line_is_first(line);
    assert forall|i: int| 0 <= i < n implies #[trigger] s[i] != '\n' by {
        assert(line.contains(line[i]));
        assert(s[i] == line[i]);
    }
    assert(s[n] == '\n');
    text::position_is(s, '\n', n);
    assert(s.take(n) =~= line);
}

/// The first version of a line counts: what is told before white space is told whatever follows, and
/// where nothing is told before it, what follows decides.
pub proof fn first_versions_count(before: Seq<char>, c: char, after: Seq<char>)
    requires
        !before.contains('\n'),
        !after.contains('\n'),
        text::is_white(c),
        c != '\n',
    ensures
        version_told(before) is Some ==> version_told(before + seq![c] + after) == version_told(
            before,
        ),
        version_told(before) is None ==> version_told(before + seq![c] + after) == version_told(
            after,
        ),
{
    let s = before + seq![c] + after;
    assert(!s.contains('\n')) by {
        if s.contains('\n') {
            let i = s.index_of('\n');
            if i < before.len() {
                assert(before[i] == '\n');
            } else if i > before.len() {
                assert(after[i - before.len() - 1] == '\n');
            }
        }
    }
    line_is_first(before);
    line_is_first(after);
    line_is_first(s);
    text::words_join(before, c, after);
    first_version_word_joins(text::words(before), text::words(after));
}

/// A word that is `v` and a release, with or without an ending, tells the release and the ending.
pub proof fn versions_are_told(a: Seq<char>, b: Seq<char>, c: Seq<char>, end: Seq<char>)
    requires
        all_digits(a),
        all_digits(b),
        all_digits(c),
        is_ending(end),
        is_unbroken(end),
    ensures
        version_told(seq!['v'] + (a + seq!['.'] + b + seq!['.'] + c + end)) == Some(
            a + seq!['.'] + b + seq!['.'] + c + end,
        ),
{
    let s = a + seq!['.'] + b + seq!['.'] + c + end;
    let word = seq!['v'] + s;
    releases_have_the_form(a, b, c, end);
    assert(word.skip(1) =~= s);
    assert forall|i: int| 0 <= i < word.len() implies !text::is_white(#[trigger] word[i]) by {
        let k = i - 1;
        if 0 <= k < a.len() {
            assert(text::is_digit(a[k]));
        } else if a.len() < k <= a.len() + b.len() {
            assert(text::is_digit(b[k - a.len() - 1]));
        } else if a.len() + b.len() + 1 < k <= a.len() + b.len() + 1 + c.len() {
            assert(text::is_digit(c[k - a.len() - b.len() - 2]));
        } else if k > a.len() + b.len() + 1 + c.len() {
            assert(word[i] == end[k - a.len() - b.len() - 2 - c.len()]);
        }
    }
    assert(!word.contains('\n')) by {
        if word.contains('\n') {
            let i = word.index_of('\n');
            assert(text::is_white(word[i]));
        }
    }
    line_is_first(word);
    text::unbroken_texts_are_words(word);
    assert(seq![word][0] == word);
}

proof fn first_version_word_is(words: Seq<Seq<char>>) -> (k: int)
    requires
        first_version_word(words) is Some,
    ensures
        0 <= k < words.len(),
        words[k] == first_version_word(words)->0,
        is_version_word(words[k]),
    decreases words.len(),
{
    if is_version_word(words[0]) {
        0
    } else {
        let k = first_version_word_is(words.skip(1));
        k + 1
    }
}

/// Three numerals with a dot between them, and an ending.
pub open spec fn is_release(v: Seq<char>) -> bool {
    exists|a: Seq<char>, b: Seq<char>, c: Seq<char>, end: Seq<char>|
        all_digits(a) && all_digits(b) && all_digits(c) && is_ending(end) && v == #[trigger] (a
            + seq!['.'] + b + seq!['.'] + c + end)
}

#[verifier::spinoff_prover]
proof fn form_is_a_release(v: Seq<char>)
    requires
        is_release_form(v),
    ensures
        is_release(v),
{
    let x = text::leading_digits(v);
    let second = v.skip(x + 1);
    let y = text::leading_digits(second);
    let third = second.skip(y + 1);
    let z = text::leading_digits(third);
    text::leading_digits_split(v);
    text::leading_digits_split(second);
    text::leading_digits_split(third);
    let a = v.take(x);
    let b = second.take(y);
    let c = third.take(z);
    let end = third.skip(z);
    assert(all_digits(a));
    assert(all_digits(b));
    assert(all_digits(c));
    assert(is_ending(end));
    assert(third =~= c + end);
    assert(second =~= b + seq!['.'] + third);
    assert(v =~= a + seq!['.'] + second);
    let whole = a + seq!['.'] + b + seq!['.'] + c + end;
    assert(whole =~= a + seq!['.'] + (b + seq!['.'] + (c + end)));
    assert(v == whole);
}

/// Whatever is told occurs in the first line, behind a `v`: three numerals with a dot between them,
/// and an ending, without white space.
pub proof fn told_versions_occur(output: Seq<char>)
    requires
        version_told(output) is Some,
    ensures
        ({
            let v = version_told(output)->0;
            &&& text::holds(first_line(output), seq!['v'] + v)
            &&& is_unbroken(v)
            &&& is_release(v)
        }),
{
    let line = first_line(output);
    let words = text::words(line);
    let k = first_version_word_is(words);
    let word = words[k];
    let v = word.skip(1);
    text::words_occur(line, k);
    assert(seq!['v'] + v =~= word);
    assert forall|i: int| 0 <= i < v.len() implies !text::is_white(#[trigger] v[i]) by {
        assert(word[i + 1] == v[i]);
    }
    form_is_a_release(v);
}

/// A state without a format version is accepted, and one with a version as that version is.
pub proof fn states_need_no_version(version: String)
    ensures
        accepts_state_version(None),
        accepts_state_version(Some(version)) <==> accepts_state(version@),
{
}

/// Warnings name what they warn of, and number errors say what is wrong.
pub proof fn warnings_are_worded(name: String, found: String, tested_max: String)
    ensures
        warning_text(VersionWarning::FormatMinorAhead { found })
            == "warning: plan format_version "@ + found@ + " is newer than tested "@ + "1.2"@
            + " — unknown fields will be ignored; consider updating eia"@,
        warning_text(VersionWarning::BinaryAhead { name, found, tested_max }) == "warning: "@
            + name@ + " "@ + found@ + " is newer than tested "@ + tested_max@
            + ".x — plan output may contain fields eia does not yet handle"@,
        number_error_text(NumberError::Empty) == "cannot parse integer from empty string"@,
        number_error_text(NumberError::InvalidDigit) == "invalid digit found in string"@,
        number_error_text(NumberError::TooLarge) == "number too large to fit in target type"@,
{
}

} // verus!
