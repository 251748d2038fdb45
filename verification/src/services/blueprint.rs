//! Blueprint engine: inputs and their values, templates, and the setup of a
//! workspace.
pub use crate::json::canonical_json;
pub use crate::services::registry::{
    build_package_doc, list_registry_packages, load_registry_package, local_registry_installs,
    package_id_from_name, package_is_signed, package_path, public_key_fingerprint, public_key_hex,
    publish_package, registry_root, sign_package_doc, signing_key_from_hex,
    verify_package_signature, PackageProvenance, RegistryPackageMeta, REGISTRY_PACKAGE_SCHEMA,
};
pub use crate::services::revisions::{
    content_equals, diff_revisions, digest_of, drift_for_blueprint, pin_server, Drift,
    RevisionMeta,
};

use crate::json;
use crate::json::Json;
use crate::models::{BlueprintInput, InputKind, Server};
use crate::paths;
use crate::services::pull;
use crate::text;
use vstd::prelude::*;
use vstd::slice::*;
use vstd::string::*;

verus! {

/// What is wrong with a value.
#[derive(Debug, Clone, Copy, PartialEq, Eq, Structural)]
pub enum InputFault {
    Required,
    TooLong,
    PatternInvalid,
    NoMatch,
    NotNumber,
    NotFinite,
    BelowMin,
    AboveMax,
    NotBool,
    NotChoice,
    PathAbsolute,
    PathHome,
    PathCharacter,
    PathUp,
    NotUrl,
    NoHost,
    ShellCharacters,
    HostCharacters,
    SymlinkEscape,
}

/// Why a value was refused: what is wrong, of which input, and what belongs to it
/// (a limit, the choices, a reason).
#[derive(Debug, Clone)]
pub struct InputError {
    pub fault: InputFault,
    pub name: String,
    pub detail: String,
}

impl InputError {
    /// The message of a refusal.
    pub open spec fn text_of(self) -> Seq<char> {
        let n = self.name@;
        let d = self.detail@;
        match self.fault {
            InputFault::Required => n + " is required"@,
            InputFault::TooLong => n + " must be at most "@ + d + " characters"@,
            InputFault::PatternInvalid => "blueprint pattern invalid: "@ + d,
            InputFault::NoMatch => n + " does not match required pattern"@,
            InputFault::NotNumber => n + " must be a number"@,
            InputFault::NotFinite => n + " must be a finite number"@,
            InputFault::BelowMin => n + " must be at least "@ + d,
            InputFault::AboveMax => n + " must be at most "@ + d,
            InputFault::NotBool => n + " must be a boolean"@,
            InputFault::NotChoice => n + " must be one of: "@ + d,
            InputFault::PathAbsolute => n + " must be a workspace-relative path"@,
            InputFault::PathHome => n + " must not reference a home directory"@,
            InputFault::PathCharacter => n + " contains an invalid character"@,
            InputFault::PathUp => n + " must not traverse outside the workspace"@,
            InputFault::NotUrl => n + " must be an http(s) URL"@,
            InputFault::NoHost => n + " must include a host"@,
            InputFault::ShellCharacters => n + " contains shell metacharacters"@,
            InputFault::HostCharacters => n + " contains invalid characters"@,
            InputFault::SymlinkEscape => n
                + " must resolve inside the workspace (symlink escape)"@,
        }
    }

    /// The message of a refusal.
    pub fn message(&self) -> (r: String)
        ensures
            r@ == self.text_of(),
    {
        let mut s = text::copy_of(self.name.as_str());
        match self.fault {
            InputFault::Required => s.append(" is required"),
            InputFault::TooLong => {
                s.append(" must be at most ");
                s.append(self.detail.as_str());
                s.append(" characters");
            },
            InputFault::PatternInvalid => {
                s = text::copy_of("blueprint pattern invalid: ");
                s.append(self.detail.as_str());
            },
            InputFault::NoMatch => s.append(" does not match required pattern"),
            InputFault::NotNumber => s.append(" must be a number"),
            InputFault::NotFinite => s.append(" must be a finite number"),
            InputFault::BelowMin => {
                s.append(" must be at least ");
                s.append(self.detail.as_str());
            },
            InputFault::AboveMax => {
                s.append(" must be at most ");
                s.append(self.detail.as_str());
            },
            InputFault::NotBool => s.append(" must be a boolean"),
            InputFault::NotChoice => {
                s.append(" must be one of: ");
                s.append(self.detail.as_str());
            },
            InputFault::PathAbsolute => s.append(" must be a workspace-relative path"),
            InputFault::PathHome => s.append(" must not reference a home directory"),
            InputFault::PathCharacter => s.append(" contains an invalid character"),
            InputFault::PathUp => s.append(" must not traverse outside the workspace"),
            InputFault::NotUrl => s.append(" must be an http(s) URL"),
            InputFault::NoHost => s.append(" must include a host"),
            InputFault::ShellCharacters => s.append(" contains shell metacharacters"),
            InputFault::HostCharacters => s.append(" contains invalid characters"),
            InputFault::SymlinkEscape => s.append(
                " must resolve inside the workspace (symlink escape)",
            ),
        }
        s
    }
}

/// Why `regex::Regex::new` refuses a pattern; none where it takes it.
pub uninterp spec fn regex_error(pattern: Seq<char>) -> Option<Seq<char>>;

/// Whether a pattern matches somewhere in a text, by `regex::Regex::is_match`;
/// false for a pattern that is refused.
pub uninterp spec fn regex_matches(pattern: Seq<char>, s: Seq<char>) -> bool;

/// `regex::Regex::new`: why a pattern is refused, if it is.
#[verifier::external_body]
pub(crate) fn regex_refusal(pattern: &str) -> (r: Option<String>)
    ensures
        match r {
            Some(s) => regex_error(pattern@) == Some(s@),
            None => regex_error(pattern@) is None,
        },
{
    regex::Regex::new(pattern).err().map(|e| e.to_string())
}

/// `regex::Regex::is_match`: whether a pattern that is taken matches somewhere in a
/// text.
#[verifier::external_body]
pub(crate) fn regex_is_match(pattern: &str, s: &str) -> (r: bool)
    ensures
        r == regex_matches(pattern@, s@),
{
    match regex::Regex::new(pattern) {
        Ok(re) => re.is_match(s),
        Err(_) => false,
    }
}

/// What reading a value as a number, and holding it against the bounds, gave.
#[derive(Debug, Clone)]
pub enum NumberVerdict {
    NotANumber,
    NotFinite,
    /// Below the least value, which is given as it is printed.
    TooLow { bound: String },
    /// Above the greatest value, which is given as it is printed.
    TooHigh { bound: String },
    Fine,
}

/// What a pattern says of a value.
#[derive(Debug, Clone)]
pub enum PatternVerdict {
    /// There is no pattern.
    Absent,
    Invalid { reason: String },
    Matches,
    Differs,
}

/// What a value is as a URL: its scheme, where it is one, and its host.
#[derive(Debug, Clone)]
pub struct UrlVerdict {
    pub scheme: Option<String>,
    pub host: Option<String>,
}

/// Whether a text is one of the words for true and false.
pub open spec fn is_bool_word(s: Seq<char>) -> bool {
    let l = text::lowered(s);
    l == "true"@ || l == "false"@ || l == "1"@ || l == "0"@ || l == "yes"@ || l == "no"@ || l
        == "on"@ || l == "off"@
}

/// Whether a character could do something in a shell.
pub open spec fn injectable(c: char) -> bool {
    c == ';' || c == '|' || c == '$' || c == '`' || c == '(' || c == ')' || c == '<' || c == '>'
        || c == '*' || c == '~' || c == '"' || c == '\'' || c == '{' || c == '}' || c == '[' || c
        == ']' || c == '!' || c == '^' || c == '\\' || text::is_space(c) || text::is_control(c)
}

/// Whether a character may stand in a host.
pub open spec fn host_char(c: char) -> bool {
    text::is_alnum(c) || c == '.' || c == '-' || c == '_' || c == ':' || c == '[' || c == ']' || c
        == '%'
}

/// Whether some character of a text could do something in a shell.
pub open spec fn has_injectable(s: Seq<char>) -> bool {
    exists|i: int| 0 <= i < s.len() && injectable(#[trigger] s[i])
}

/// Whether every character of a text may stand in a host.
pub open spec fn all_host_chars(s: Seq<char>) -> bool {
    forall|i: int| 0 <= i < s.len() ==> host_char(#[trigger] s[i])
}

/// What is wrong with a path into the workspace.
pub open spec fn path_fault(value: Seq<char>) -> Option<InputFault> {
    if value.len() > 0 && value[0] == '/' {
        Some(InputFault::PathAbsolute)
    } else if value.len() > 0 && value[0] == '~' {
        Some(InputFault::PathHome)
    } else if text::mentions(value, '\0') {
        Some(InputFault::PathCharacter)
    } else if text::split_on(value, '/').contains(seq!['.', '.']) {
        Some(InputFault::PathUp)
    } else {
        None
    }
}

/// What is wrong with a URL.
pub open spec fn url_fault(value: Seq<char>, url: UrlVerdict) -> Option<InputFault> {
    if url.scheme is None || (url.scheme->0@ != "http"@ && url.scheme->0@ != "https"@) {
        Some(InputFault::NotUrl)
    } else if url.host is None || url.host->0@.len() == 0 {
        Some(InputFault::NoHost)
    } else if has_injectable(value) {
        Some(InputFault::ShellCharacters)
    } else if !all_host_chars(url.host->0@) {
        Some(InputFault::HostCharacters)
    } else {
        None
    }
}

/// What is wrong with a value, and what belongs to that, given what was found out
/// about it elsewhere.
pub open spec fn value_fault(
    var: BlueprintInput,
    value: Seq<char>,
    number: NumberVerdict,
    pattern: PatternVerdict,
    url: UrlVerdict,
) -> Option<(InputFault, Seq<char>)> {
    let none = Seq::<char>::empty();
    let trimmed = text::trimmed(value);
    if trimmed.len() == 0 {
        if var.required {
            Some((InputFault::Required, none))
        } else {
            None
        }
    } else {
        match var.kind {
            InputKind::Text { max_len, .. } => if max_len is Some && value.len() > max_len->0 {
                Some((InputFault::TooLong, text::decimal(max_len->0 as int)))
            } else {
                match pattern {
                    PatternVerdict::Invalid { reason } => Some(
                        (InputFault::PatternInvalid, reason@),
                    ),
                    PatternVerdict::Differs => Some((InputFault::NoMatch, none)),
                    _ => None,
                }
            },
            InputKind::Number { .. } => match number {
                NumberVerdict::NotANumber => Some((InputFault::NotNumber, none)),
                NumberVerdict::NotFinite => Some((InputFault::NotFinite, none)),
                NumberVerdict::TooLow { bound } => Some((InputFault::BelowMin, bound@)),
                NumberVerdict::TooHigh { bound } => Some((InputFault::AboveMax, bound@)),
                NumberVerdict::Fine => None,
            },
            InputKind::Bool => if is_bool_word(trimmed) {
                None
            } else {
                Some((InputFault::NotBool, none))
            },
            InputKind::Choice { options } => if text::views(options@).contains(trimmed) {
                None
            } else {
                Some((InputFault::NotChoice, text::joined(text::views(options@), ", "@)))
            },
            InputKind::Path { max_len } => if max_len is Some && value.len() > max_len->0 {
                Some((InputFault::TooLong, text::decimal(max_len->0 as int)))
            } else {
                match path_fault(trimmed) {
                    Some(f) => Some((f, none)),
                    None => None,
                }
            },
            InputKind::Url => match url_fault(trimmed, url) {
                Some(f) => Some((f, none)),
                None => None,
            },
        }
    }
}

/// Whether an answer is the one to a value with these faults.
pub open spec fn is_verdict(
    fault: Option<(InputFault, Seq<char>)>,
    name: Seq<char>,
    r: Result<(), InputError>,
) -> bool {
    match r {
        Ok(_) => fault is None,
        Err(e) => fault == Some((e.fault, e.detail@)) && e.name@ == name,
    }
}

fn refuse(fault: InputFault, name: &str, detail: &str) -> (r: InputError)
    ensures
        r.fault == fault,
        r.name@ == name@,
        r.detail@ == detail@,
{
    InputError { fault, name: text::copy_of(name), detail: text::copy_of(detail) }
}

fn refuse_plain(fault: InputFault, name: &str) -> (r: InputError)
    ensures
        r.fault == fault,
        r.name@ == name@,
        r.detail@ == Seq::<char>::empty(),
{
    let detail = String::new();
    assert(detail@ =~= Seq::<char>::empty());
    InputError { fault, name: text::copy_of(name), detail }
}

/// Whether a text is one of the words for true and false.
fn bool_word(s: &[char]) -> (r: bool)
    ensures
        r == is_bool_word(s@),
{
    let l = text::string_of(text::to_lower(s).as_slice());
    let w = l.as_str();
    text::same(w, "true") || text::same(w, "false") || text::same(w, "1") || text::same(w, "0")
        || text::same(w, "yes") || text::same(w, "no") || text::same(w, "on") || text::same(
        w,
        "off",
    )
}

/// Whether some character of a text could do something in a shell.
fn is_injectable(s: &[char]) -> (r: bool)
    ensures
        r == has_injectable(s@),
{
    let mut i: usize = 0;
    while i < s.len()
        invariant
            i <= s@.len(),
            forall|k: int| 0 <= k < i ==> !injectable(#[trigger] s@[k]),
        decreases s.len() - i,
    {
        let c = s[i];
        let bad = match c {
            ';' | '|' | '$' | '`' | '(' | ')' | '<' | '>' | '*' | '~' | '"' | '\'' | '{' | '}' | '['
            | ']' | '!' | '^' | '\\' => true,
            _ => false,
        };
        if bad || text::is_white_space(c) || text::is_control_char(c) {
            assert(injectable(s@[i as int]));
            return true;
        }
        i += 1;
    }
    false
}

/// Whether every character of a text may stand in a host.
fn is_host(s: &[char]) -> (r: bool)
    ensures
        r == all_host_chars(s@),
{
    let mut i: usize = 0;
    while i < s.len()
        invariant
            i <= s@.len(),
            forall|k: int| 0 <= k < i ==> host_char(#[trigger] s@[k]),
        decreases s.len() - i,
    {
        let c = s[i];
        let fine = match c {
            '.' | '-' | '_' | ':' | '[' | ']' | '%' => true,
            _ => text::is_ascii_alnum(c),
        };
        if !fine {
            assert(!host_char(s@[i as int]));
            return false;
        }
        i += 1;
    }
    true
}

/// Checks a path into the workspace: anything that can leave it is refused.
pub fn validate_workspace_path(name: &str, value: &str) -> (r: Result<(), InputError>)
    ensures
        is_verdict(
            match path_fault(value@) {
                Some(f) => Some((f, Seq::<char>::empty())),
                None => None,
            },
            name@,
            r,
        ),
{
    let cs = text::chars_of(value);
    if cs.len() > 0 && cs[0] == '/' {
        return Err(refuse_plain(InputFault::PathAbsolute, name));
    }
    if cs.len() > 0 && cs[0] == '~' {
        return Err(refuse_plain(InputFault::PathHome, name));
    }
    if text::contains_char(cs.as_slice(), '\0') {
        return Err(refuse_plain(InputFault::PathCharacter, name));
    }
    let pieces = text::split(cs.as_slice(), '/');
    let ghost all = text::split_on(value@, '/');
    let mut i: usize = 0;
    while i < pieces.len()
        invariant
            i <= pieces@.len(),
            text::runs(pieces@) == all,
            all == text::split_on(value@, '/'),
            !(value@.len() > 0 && (value@[0] == '/' || value@[0] == '~')),
            !text::mentions(value@, '\0'),
            forall|k: int| 0 <= k < i ==> all[k] != seq!['.', '.'],
        decreases pieces.len() - i,
    {
        assert(all[i as int] == pieces@[i as int]@);
        if paths::is_up(pieces[i].as_slice()) {
            assert(all.contains(seq!['.', '.']));
            return Err(refuse_plain(InputFault::PathUp, name));
        }
        i += 1;
    }
    Ok(())
}

/// Whether some strings hold a text.
fn holds_text(options: &Vec<String>, s: &str) -> (r: bool)
    ensures
        r == text::views(options@).contains(s@),
{
    let ghost all = text::views(options@);
    let mut i: usize = 0;
    while i < options.len()
        invariant
            i <= options@.len(),
            all == text::views(options@),
            forall|k: int| 0 <= k < i ==> all[k] != s@,
        decreases options.len() - i,
    {
        assert(all[i as int] == options@[i as int]@);
        if text::same(options[i].as_str(), s) {
            return true;
        }
        i += 1;
    }
    false
}

/// Strings with a comma and a space between them.
fn listed(options: &Vec<String>) -> (r: String)
    ensures
        r@ == text::joined(text::views(options@), ", "@),
{
    let mut runs: Vec<Vec<char>> = Vec::new();
    let ghost all = text::views(options@);
    let mut i: usize = 0;
    assert(text::runs(runs@) =~= all.take(0));
    while i < options.len()
        invariant
            i <= options@.len(),
            all == text::views(options@),
            text::runs(runs@) == all.take(i as int),
        decreases options.len() - i,
    {
        let ghost before = text::runs(runs@);
        runs.push(text::chars_of(options[i].as_str()));
        assert(text::runs(runs@) =~= before.push(all[i as int]));
        i += 1;
        assert(text::runs(runs@) =~= all.take(i as int));
    }
    assert(all.take(i as int) =~= all);
    let sep = text::chars_of(", ");
    text::string_of(text::join(&runs, sep.as_slice()).as_slice())
}

/// Checks a value against the kind of its input, given what was found out about
/// it elsewhere.
pub fn check_value(
    var: &BlueprintInput,
    value: &str,
    number: &NumberVerdict,
    pattern: &PatternVerdict,
    url: &UrlVerdict,
) -> (r: Result<(), InputError>)
    ensures
        is_verdict(value_fault(*var, value@, *number, *pattern, *url), var.env_var@, r),
{
    let name = var.env_var.as_str();
    let cs = text::chars_of(value);
    let trimmed = text::trim(cs.as_slice());
    if trimmed.len() == 0 {
        if var.required {
            return Err(refuse_plain(InputFault::Required, name));
        }
        return Ok(());
    }
    match &var.kind {
        InputKind::Text { max_len, .. } => {
            if let Some(mx) = max_len {
                if cs.len() > *mx {
                    let n = text::string_of(text::decimal_u64(*mx as u64).as_slice());
                    return Err(refuse(InputFault::TooLong, name, n.as_str()));
                }
            }
            match pattern {
                PatternVerdict::Invalid { reason } => Err(
                    refuse(InputFault::PatternInvalid, name, reason.as_str()),
                ),
                PatternVerdict::Differs => Err(refuse_plain(InputFault::NoMatch, name)),
                _ => Ok(()),
            }
        },
        InputKind::Number { .. } => match number {
            NumberVerdict::NotANumber => Err(refuse_plain(InputFault::NotNumber, name)),
            NumberVerdict::NotFinite => Err(refuse_plain(InputFault::NotFinite, name)),
            NumberVerdict::TooLow { bound } => Err(
                refuse(InputFault::BelowMin, name, bound.as_str()),
            ),
            NumberVerdict::TooHigh { bound } => Err(
                refuse(InputFault::AboveMax, name, bound.as_str()),
            ),
            NumberVerdict::Fine => Ok(()),
        },
        InputKind::Bool => if bool_word(trimmed) {
            Ok(())
        } else {
            Err(refuse_plain(InputFault::NotBool, name))
        },
        InputKind::Choice { options } => {
            let t = text::string_of(trimmed);
            if holds_text(options, t.as_str()) {
                Ok(())
            } else {
                let all = listed(options);
                Err(refuse(InputFault::NotChoice, name, all.as_str()))
            }
        },
        InputKind::Path { max_len } => {
            if let Some(mx) = max_len {
                if cs.len() > *mx {
                    let n = text::string_of(text::decimal_u64(*mx as u64).as_slice());
                    return Err(refuse(InputFault::TooLong, name, n.as_str()));
                }
            }
            let t = text::string_of(trimmed);
            validate_workspace_path(name, t.as_str())
        },
        InputKind::Url => {
            let web = match &url.scheme {
                Some(s) => text::same(s.as_str(), "http") || text::same(s.as_str(), "https"),
                None => false,
            };
            if !web {
                return Err(refuse_plain(InputFault::NotUrl, name));
            }
            match &url.host {
                None => Err(refuse_plain(InputFault::NoHost, name)),
                Some(h) => {
                    let hc = text::chars_of(h.as_str());
                    if hc.len() == 0 {
                        return Err(refuse_plain(InputFault::NoHost, name));
                    }
                    if is_injectable(trimmed) {
                        return Err(refuse_plain(InputFault::ShellCharacters, name));
                    }
                    if !is_host(hc.as_slice()) {
                        return Err(refuse_plain(InputFault::HostCharacters, name));
                    }
                    Ok(())
                },
            }
        },
    }
}

/// Whether `p` is what the pattern of an input says of a value.
pub open spec fn is_pattern_verdict(var: BlueprintInput, value: Seq<char>, p: PatternVerdict) -> bool {
    match var.kind {
        InputKind::Text { pattern: Some(re), .. } => match regex_error(re@) {
            Some(m) => p matches PatternVerdict::Invalid { reason } && reason@ == m,
            None => if regex_matches(re@, value) {
                p is Matches
            } else {
                p is Differs
            },
        },
        _ => p is Absent,
    }
}

/// Whether `u` is what a trimmed value is as a URL.
pub open spec fn is_url_verdict(value: Seq<char>, u: UrlVerdict) -> bool {
    match pull::url_parsed(value) {
        Ok(_) => u.scheme is Some && u.scheme->0@ == pull::url_scheme(value) && match pull::url_host(
            value,
        ) {
            Some(h) => u.host is Some && u.host->0@ == h,
            None => u.host is None,
        },
        Err(_) => u.scheme is None && u.host is None,
    }
}

/// What the pattern of an input says of a value.
fn pattern_verdict(var: &BlueprintInput, value: &str) -> (r: PatternVerdict)
    ensures
        is_pattern_verdict(*var, value@, r),
{
    match &var.kind {
        InputKind::Text { pattern: Some(re), .. } => match regex_refusal(re.as_str()) {
            Some(reason) => PatternVerdict::Invalid { reason },
            None => if regex_is_match(re.as_str(), value) {
                PatternVerdict::Matches
            } else {
                PatternVerdict::Differs
            },
        },
        _ => PatternVerdict::Absent,
    }
}

/// What a trimmed value is as a URL.
fn url_verdict(value: &str) -> (r: UrlVerdict)
    ensures
        is_url_verdict(value@, r),
{
    match pull::parse_url(value) {
        Ok(_) => UrlVerdict { scheme: Some(pull::scheme_of(value)), host: pull::host_of(value) },
        Err(_) => UrlVerdict { scheme: None, host: None },
    }
}

/// Checks a value against the kind of its input. Whether it is a number within
/// its bounds is found out elsewhere and given.
pub fn validate_value(var: &BlueprintInput, value: &str, number: &NumberVerdict) -> (r: Result<
    (),
    InputError,
>)
    ensures
        exists|p: PatternVerdict, u: UrlVerdict|
            #![trigger value_fault(*var, value@, *number, p, u)]
            is_pattern_verdict(*var, value@, p) && is_url_verdict(text::trimmed(value@), u)
                && is_verdict(value_fault(*var, value@, *number, p, u), var.env_var@, r),
{
    let p = pattern_verdict(var, value);
    let t = text::trim_string(value);
    let u = url_verdict(t.as_str());
    let r = check_value(var, value, number, &p, &u);
    assert(is_verdict(value_fault(*var, value@, *number, p, u), var.env_var@, r));
    r
}

/// A value that a URL input takes holds nothing that could do something in a
/// shell.
pub proof fn law_accepted_url_is_inert(
    var: BlueprintInput,
    value: Seq<char>,
    number: NumberVerdict,
    pattern: PatternVerdict,
    url: UrlVerdict,
)
    requires
        var.kind is Url,
        text::trimmed(value).len() > 0,
        value_fault(var, value, number, pattern, url) is None,
    ensures
        !has_injectable(text::trimmed(value)),
{
}

/// A value that a path input takes stays below the directory it is taken from.
pub proof fn law_accepted_path_stays_below(
    var: BlueprintInput,
    value: Seq<char>,
    number: NumberVerdict,
    pattern: PatternVerdict,
    url: UrlVerdict,
    dir: Seq<char>,
)
    requires
        var.kind is Path,
        text::trimmed(value).len() > 0,
        value_fault(var, value, number, pattern, url) is None,
    ensures
        paths::is_within(paths::joined(dir, text::trimmed(value)), dir),
        !text::split_on(text::trimmed(value), '/').contains(seq!['.', '.']),
{
    paths::lemma_joined_within(dir, text::trimmed(value));
}

/// The last value under a key among pairs.
pub open spec fn last_value(pairs: Seq<(Seq<char>, Seq<char>)>, key: Seq<char>) -> Option<
    Seq<char>,
>
    decreases pairs.len(),
{
    if pairs.len() == 0 {
        None
    } else if pairs.last().0 == key {
        Some(pairs.last().1)
    } else {
        last_value(pairs.drop_last(), key)
    }
}

/// The last value under a key among pairs.
pub(crate) fn look_up<'a>(pairs: &'a Vec<(String, String)>, key: &str) -> (r: Option<&'a String>)
    ensures
        match r {
            Some(s) => last_value(json::entries_of(pairs@), key@) == Some(s@),
            None => last_value(json::entries_of(pairs@), key@) is None,
        },
{
    let ghost all = json::entries_of(pairs@);
    let mut n: usize = pairs.len();
    assert(all.take(n as int) =~= all);
    while n > 0
        invariant
            n <= pairs@.len(),
            all == json::entries_of(pairs@),
            last_value(all.take(n as int), key@) == last_value(all, key@),
        decreases n,
    {
        assert(all.take(n as int).last() == all[n - 1]);
        assert(all[n - 1] == (pairs@[n - 1].0@, pairs@[n - 1].1@));
        if text::same(pairs[n - 1].0.as_str(), key) {
            return Some(&pairs[n - 1].1);
        }
        assert(all.take(n as int).drop_last() =~= all.take(n - 1));
        n -= 1;
    }
    None
}

/// The value of an input: the owner's, else the one declared.
pub open spec fn value_of(var: BlueprintInput, overrides: Seq<(Seq<char>, Seq<char>)>) -> Seq<
    char,
> {
    match last_value(overrides, var.env_var@) {
        Some(v) => v,
        None => var.default_value@,
    }
}

/// The values of some inputs.
pub open spec fn values_of(
    vars: Seq<BlueprintInput>,
    overrides: Seq<(Seq<char>, Seq<char>)>,
) -> Seq<Seq<char>> {
    Seq::new(vars.len(), |i: int| value_of(vars[i], overrides))
}

/// The values of a workspace's inputs, one for each: the owner's overrides apply.
pub fn resolve_variables(vars: &Vec<BlueprintInput>, overrides: &Vec<(String, String)>) -> (r: Vec<
    String,
>)
    ensures
        text::views(r@) == values_of(vars@, json::entries_of(overrides@)),
{
    let ghost goal = values_of(vars@, json::entries_of(overrides@));
    let mut out: Vec<String> = Vec::new();
    let mut i: usize = 0;
    assert(text::views(out@) =~= goal.take(0));
    while i < vars.len()
        invariant
            i <= vars@.len(),
            goal == values_of(vars@, json::entries_of(overrides@)),
            text::views(out@) == goal.take(i as int),
        decreases vars.len() - i,
    {
        let v = match look_up(overrides, vars[i].env_var.as_str()) {
            Some(s) => text::copy_of(s.as_str()),
            None => text::copy_of(vars[i].default_value.as_str()),
        };
        let ghost before = text::views(out@);
        out.push(v);
        assert(text::views(out@) =~= before.push(goal[i as int]));
        i += 1;
        assert(text::views(out@) =~= goal.take(i as int));
    }
    assert(goal.take(i as int) =~= goal);
    out
}

/// Whether a character needs no quotes in a shell.
pub open spec fn is_inert(c: char) -> bool {
    text::is_alnum(c) || c == '-' || c == '_' || c == '.' || c == ',' || c == ':' || c == '/' || c
        == '@' || c == '=' || c == '+' || c == '%'
}

/// Whether every character of a text needs no quotes in a shell.
pub open spec fn all_inert(s: Seq<char>) -> bool {
    forall|i: int| 0 <= i < s.len() ==> is_inert(#[trigger] s[i])
}

/// A text as it stands between single quotes: each quote in it leaves the quotes,
/// stands escaped, and enters them again.
pub open spec fn in_quotes(s: Seq<char>) -> Seq<char>
    decreases s.len(),
{
    if s.len() == 0 {
        Seq::empty()
    } else if s[0] == '\'' {
        seq!['\'', '\\', '\'', '\''] + in_quotes(s.drop_first())
    } else {
        seq![s[0]] + in_quotes(s.drop_first())
    }
}

/// A value as one word of a shell command.
pub open spec fn quoted(value: Seq<char>) -> Seq<char> {
    if value.len() > 0 && all_inert(value) {
        value
    } else {
        seq!['\''] + in_quotes(value) + seq!['\'']
    }
}

/// Whether a character needs no quotes in a shell.
fn needs_no_quotes(c: char) -> (r: bool)
    ensures
        r == is_inert(c),
{
    match c {
        '-' | '_' | '.' | ',' | ':' | '/' | '@' | '=' | '+' | '%' => true,
        _ => text::is_ascii_alnum(c),
    }
}

/// Quotes a value so that it is exactly one word of a shell command. One of safe
/// characters alone stays bare.
pub fn shell_quote(value: &str) -> (r: String)
    ensures
        r@ == quoted(value@),
{
    let cs = text::chars_of(value);
    let mut bare = true;
    let mut k: usize = 0;
    while k < cs.len()
        invariant
            k <= cs@.len(),
            bare == forall|i: int| 0 <= i < k ==> is_inert(#[trigger] cs@[i]),
        decreases cs.len() - k,
    {
        if !needs_no_quotes(cs[k]) {
            bare = false;
        }
        k += 1;
    }
    if bare && cs.len() > 0 {
        return text::copy_of(value);
    }
    let mut out: Vec<char> = Vec::new();
    out.push('\'');
    let mut i: usize = 0;
    assert(cs@.skip(0) =~= cs@);
    assert(out@ + in_quotes(cs@) =~= seq!['\''] + in_quotes(cs@));
    while i < cs.len()
        invariant
            i <= cs@.len(),
            out@ + in_quotes(cs@.skip(i as int)) == seq!['\''] + in_quotes(cs@),
        decreases cs.len() - i,
    {
        let ghost before = out@;
        let ghost rest = in_quotes(cs@.skip(i + 1));
        assert(cs@.skip(i as int).drop_first() =~= cs@.skip(i + 1));
        if cs[i] == '\'' {
            out.push('\'');
            out.push('\\');
            out.push('\'');
            out.push('\'');
            assert(out@ + rest =~= before + (seq!['\'', '\\', '\'', '\''] + rest));
        } else {
            out.push(cs[i]);
            assert(out@ + rest =~= before + (seq![cs@[i as int]] + rest));
        }
        i += 1;
    }
    assert(cs@.skip(i as int) =~= Seq::<char>::empty());
    assert(out@ + Seq::<char>::empty() =~= out@);
    out.push('\'');
    assert(out@ =~= quoted(value@));
    text::string_of(out.as_slice())
}

/// What a shell reads as one word, from a place within or without single quotes:
/// none where the text is not one word that does nothing else.
pub open spec fn word_of(s: Seq<char>, within: bool) -> Option<Seq<char>>
    decreases s.len(),
{
    if s.len() == 0 {
        if within {
            None
        } else {
            Some(Seq::empty())
        }
    } else if s[0] == '\'' {
        word_of(s.skip(1), !within)
    } else if within || is_inert(s[0]) {
        match word_of(s.skip(1), within) {
            Some(w) => Some(seq![s[0]] + w),
            None => None,
        }
    } else if s[0] == '\\' && s.len() > 1 {
        match word_of(s.skip(2), within) {
            Some(w) => Some(seq![s[1]] + w),
            None => None,
        }
    } else {
        None
    }
}

proof fn lemma_quotes_read_back(v: Seq<char>)
    ensures
        word_of(in_quotes(v) + seq!['\''], true) == Some(v),
    decreases v.len(),
{
    let end = seq!['\''];
    let s = in_quotes(v) + end;
    if v.len() == 0 {
        assert(s =~= end);
        assert(s.skip(1) =~= Seq::<char>::empty());
        assert(v =~= Seq::<char>::empty());
    } else {
        let rest = v.drop_first();
        lemma_quotes_read_back(rest);
        let tail = in_quotes(rest) + end;
        assert(v =~= seq![v[0]] + rest);
        if v[0] == '\'' {
            assert(s =~= seq!['\'', '\\', '\'', '\''] + tail);
            assert(s.skip(1) =~= seq!['\\', '\'', '\''] + tail);
            assert(s.skip(1).skip(2) =~= seq!['\''] + tail);
            assert(s.skip(1).skip(2).skip(1) =~= tail);
            assert(!is_inert('\\'));
            assert(word_of(s.skip(1).skip(2), false) == Some(rest));
            assert(s.skip(1)[0] == '\\' && s.skip(1)[1] == '\'');
            assert(word_of(s.skip(1), false) == Some(seq!['\''] + rest));
        } else {
            assert(s =~= seq![v[0]] + tail);
            assert(s.skip(1) =~= tail);
        }
    }
}

proof fn lemma_bare_reads_back(v: Seq<char>)
    requires
        all_inert(v),
    ensures
        word_of(v, false) == Some(v),
    decreases v.len(),
{
    if v.len() == 0 {
        assert(v =~= Seq::<char>::empty());
    } else {
        let rest = v.skip(1);
        assert forall|i: int| 0 <= i < rest.len() implies is_inert(#[trigger] rest[i]) by {
            assert(rest[i] == v[i + 1]);
        }
        lemma_bare_reads_back(rest);
        assert(is_inert(v[0]));
        assert(v =~= seq![v[0]] + rest);
    }
}

/// A quoted value is one word to a shell, and that word is the value: nothing in
/// it can act.
pub proof fn law_quoted_value_is_one_word(value: Seq<char>)
    ensures
        word_of(quoted(value), false) == Some(value),
{
    if value.len() > 0 && all_inert(value) {
        lemma_bare_reads_back(value);
    } else {
        lemma_quotes_read_back(value);
        let inner = in_quotes(value) + seq!['\''];
        assert(quoted(value) =~= seq!['\''] + inner);
        assert(quoted(value).skip(1) =~= inner);
    }
}

/// What the parts of a placeholder are made of.
#[derive(Debug, Clone, Copy, PartialEq, Eq, Structural)]
pub enum Class {
    Space,
    /// Small letters.
    Scope,
    /// Letters, digits and underscores.
    Field,
}

/// Whether a character is of a class.
pub open spec fn in_class(c: char, class: Class) -> bool {
    match class {
        Class::Space => text::is_space(c),
        Class::Scope => 'a' <= c <= 'z',
        Class::Field => text::is_alnum(c) || c == '_',
    }
}

/// Where a run of a class that starts at `i` ends.
pub open spec fn run_end(s: Seq<char>, i: int, class: Class) -> int
    decreases s.len() - i,
{
    if 0 <= i < s.len() && in_class(s[i], class) {
        run_end(s, i + 1, class)
    } else {
        i
    }
}

proof fn lemma_run_end(s: Seq<char>, i: int, class: Class)
    requires
        0 <= i <= s.len(),
    ensures
        i <= run_end(s, i, class) <= s.len(),
    decreases s.len() - i,
{
    if i < s.len() && in_class(s[i], class) {
        lemma_run_end(s, i + 1, class);
    }
}

/// Where a run of a class that starts at `i` ends.
fn find_run_end(s: &[char], i: usize, class: Class) -> (r: usize)
    requires
        i <= s@.len(),
    ensures
        r == run_end(s@, i as int, class),
        i <= r <= s@.len(),
{
    let mut j: usize = i;
    while j < s.len()
        invariant_except_break
            run_end(s@, j as int, class) == run_end(s@, i as int, class),
        invariant
            i <= j <= s@.len(),
        ensures
            j == run_end(s@, i as int, class),
        decreases s.len() - j,
    {
        let c = s[j];
        let inside = match class {
            Class::Space => text::is_white_space(c),
            Class::Scope => c >= 'a' && c <= 'z',
            Class::Field => c == '_' || text::is_ascii_alnum(c),
        };
        if !inside {
            break ;
        }
        j += 1;
    }
    j
}

/// The placeholder that starts at `i`, if one does: its key, and where it ends. A
/// placeholder is `${scope.field}`, with space inside the braces or without.
pub open spec fn placeholder(s: Seq<char>, i: int) -> Option<(Seq<char>, int)> {
    if 0 <= i && i + 1 < s.len() && s[i] == '$' && s[i + 1] == '{' {
        let a = run_end(s, i + 2, Class::Space);
        let b = run_end(s, a, Class::Scope);
        if b == a || b >= s.len() || s[b] != '.' {
            None
        } else {
            let c = run_end(s, b + 1, Class::Field);
            let d = run_end(s, c, Class::Space);
            if c == b + 1 || d >= s.len() || s[d] != '}' {
                None
            } else {
                Some((s.subrange(a, c), d + 1))
            }
        }
    } else {
        None
    }
}

/// A placeholder ends behind where it starts.
pub proof fn lemma_placeholder(s: Seq<char>, i: int)
    ensures
        placeholder(s, i) is Some ==> i < (placeholder(s, i)->0).1 <= s.len(),
{
    if 0 <= i && i + 1 < s.len() && s[i] == '$' && s[i + 1] == '{' {
        lemma_run_end(s, i + 2, Class::Space);
        let a = run_end(s, i + 2, Class::Space);
        lemma_run_end(s, a, Class::Scope);
        let b = run_end(s, a, Class::Scope);
        if b < s.len() {
            lemma_run_end(s, b + 1, Class::Field);
            lemma_run_end(s, run_end(s, b + 1, Class::Field), Class::Space);
        }
    }
}

/// The placeholder that starts at `i`, if one does.
fn read_placeholder(s: &[char], i: usize) -> (r: Option<(String, usize)>)
    requires
        i < s@.len(),
    ensures
        match r {
            Some((k, e)) => placeholder(s@, i as int) == Some((k@, e as int)) && i < e <= s@.len(),
            None => placeholder(s@, i as int) is None,
        },
{
    if s[i] != '$' || i + 1 >= s.len() || s[i + 1] != '{' {
        return None;
    }
    let a = find_run_end(s, i + 2, Class::Space);
    let b = find_run_end(s, a, Class::Scope);
    if b == a || b >= s.len() || s[b] != '.' {
        return None;
    }
    let c = find_run_end(s, b + 1, Class::Field);
    let d = find_run_end(s, c, Class::Space);
    if c == b + 1 || d >= s.len() || s[d] != '}' {
        return None;
    }
    Some((text::string_of(slice_subrange(s, a, c)), d + 1))
}

/// The keys that a template refers to from `i` on, in order.
pub open spec fn references(s: Seq<char>, i: int) -> Seq<Seq<char>>
    decreases s.len() - i,
    when 0 <= i
{
    if i >= s.len() {
        Seq::empty()
    } else {
        match placeholder(s, i) {
            Some((key, end)) => {
                proof {
                    lemma_placeholder(s, i);
                }
                seq![key] + references(s, end)
            },
            None => references(s, i + 1),
        }
    }
}

/// Values for templates, and keys of inputs that must not be rendered.
#[derive(Debug, Clone)]
pub struct TemplateCtx {
    pub values: Vec<(String, String)>,
    pub secrets: Vec<String>,
}

/// A context by its texts alone.
pub struct Values {
    pub values: Seq<(Seq<char>, Seq<char>)>,
    pub secrets: Seq<Seq<char>>,
}

impl View for TemplateCtx {
    type V = Values;

    open spec fn view(&self) -> Values {
        Values { values: json::entries_of(self.values@), secrets: text::views(self.secrets@) }
    }
}

/// Whether a value flows into a command as the user wrote it.
pub open spec fn is_users(key: Seq<char>) -> bool {
    text::begins_with(key, "input."@) || key == "workspace.name"@
}

/// Whether a value flows into a command as the user wrote it, and so is quoted.
pub fn is_command_value(key: &str) -> (r: bool)
    ensures
        r == is_users(key@),
{
    let k = text::chars_of(key);
    let p = text::chars_of("input.");
    text::starts_with(k.as_slice(), p.as_slice()) || text::same(key, "workspace.name")
}

/// What a placeholder is replaced by.
pub open spec fn replacement(ctx: Values, key: Seq<char>, quote: bool) -> Seq<char> {
    match last_value(ctx.values, key) {
        Some(v) => if quote && is_users(key) {
            quoted(v)
        } else {
            v
        },
        None => Seq::empty(),
    }
}

/// A template from `i` on with its placeholders replaced.
pub open spec fn replaced(s: Seq<char>, i: int, ctx: Values, quote: bool) -> Seq<char>
    decreases s.len() - i,
    when 0 <= i
{
    if i >= s.len() {
        Seq::empty()
    } else {
        match placeholder(s, i) {
            Some((key, end)) => {
                proof {
                    lemma_placeholder(s, i);
                }
                replacement(ctx, key, quote) + replaced(s, end, ctx, quote)
            },
            None => seq![s[i]] + replaced(s, i + 1, ctx, quote),
        }
    }
}

/// Whether a key is that of an input that must not be rendered.
pub open spec fn is_hidden(ctx: Values, key: Seq<char>) -> bool {
    last_value(ctx.values, key) is None && ctx.secrets.contains(key)
}

/// Whether a key is not known at all.
pub open spec fn is_unknown(ctx: Values, key: Seq<char>) -> bool {
    last_value(ctx.values, key) is None && !ctx.secrets.contains(key)
}

/// The first of some keys that must not be rendered.
pub open spec fn first_hidden(keys: Seq<Seq<char>>, ctx: Values) -> Option<Seq<char>>
    decreases keys.len(),
{
    if keys.len() == 0 {
        None
    } else if is_hidden(ctx, keys[0]) {
        Some(keys[0])
    } else {
        first_hidden(keys.drop_first(), ctx)
    }
}

/// The first of some keys that is not known.
pub open spec fn first_unknown(keys: Seq<Seq<char>>, ctx: Values) -> Option<Seq<char>>
    decreases keys.len(),
{
    if keys.len() == 0 {
        None
    } else if is_unknown(ctx, keys[0]) {
        Some(keys[0])
    } else {
        first_unknown(keys.drop_first(), ctx)
    }
}

/// Why a template was not rendered.
#[derive(Debug, Clone)]
pub enum RenderError {
    Secret { key: String },
    Unknown { key: String },
}

impl RenderError {
    /// The message of a refusal.
    pub open spec fn text_of(self) -> Seq<char> {
        match self {
            RenderError::Secret { key } => "secret variable "@ + key@
                + " cannot be rendered into a command or config; it is passed to the process env only"@,
            RenderError::Unknown { key } => "unknown placeholder ${"@ + key@ + "}"@,
        }
    }

    /// The message of a refusal.
    pub fn message(&self) -> (r: String)
        ensures
            r@ == self.text_of(),
    {
        match self {
            RenderError::Secret { key } => {
                let mut s = text::copy_of("secret variable ");
                s.append(key.as_str());
                s.append(
                    " cannot be rendered into a command or config; it is passed to the process env only",
                );
                s
            },
            RenderError::Unknown { key } => {
                let mut s = text::copy_of("unknown placeholder ${");
                s.append(key.as_str());
                s.append("}");
                s
            },
        }
    }
}

/// Whether an answer is what rendering a template gives: a key that must not be
/// rendered is the first thing to report, then one that is not known.
pub open spec fn is_rendered(
    template: Seq<char>,
    ctx: Values,
    quote: bool,
    r: Result<String, RenderError>,
) -> bool {
    let keys = references(template, 0);
    match first_hidden(keys, ctx) {
        Some(k) => r matches Err(RenderError::Secret { key }) && key@ == k,
        None => match first_unknown(keys, ctx) {
            Some(k) => r matches Err(RenderError::Unknown { key }) && key@ == k,
            None => r matches Ok(s) && s@ == replaced(template, 0, ctx, quote),
        },
    }
}

/// Replaces the placeholders of a template.
pub fn render_impl(template: &str, ctx: &TemplateCtx, quote: bool) -> (r: Result<
    String,
    RenderError,
>)
    ensures
        is_rendered(template@, ctx@, quote, r),
{
    let s = text::chars_of(template);
    let ghost c = ctx@;
    let ghost keys = references(s@, 0);
    let mut secret: Option<String> = None;
    let mut missing: Option<String> = None;
    let mut out: Vec<char> = Vec::new();
    let mut i: usize = 0;
    assert(out@ + replaced(s@, 0, c, quote) =~= replaced(s@, 0, c, quote));
    while i < s.len()
        invariant
            i <= s@.len(),
            c == ctx@,
            keys == references(s@, 0),
            out@ + replaced(s@, i as int, c, quote) == replaced(s@, 0, c, quote),
            match secret {
                Some(k) => first_hidden(keys, c) == Some(k@),
                None => first_hidden(keys, c) == first_hidden(references(s@, i as int), c),
            },
            match missing {
                Some(k) => first_unknown(keys, c) == Some(k@),
                None => first_unknown(keys, c) == first_unknown(references(s@, i as int), c),
            },
        decreases s.len() - i,
    {
        let ghost before = out@;
        match read_placeholder(s.as_slice(), i) {
            Some((key, end)) => {
                let ghost rest = references(s@, end as int);
                proof {
                    let now = references(s@, i as int);
                    assert(now =~= seq![key@] + rest);
                    assert(now.drop_first() =~= rest);
                }
                match look_up(&ctx.values, key.as_str()) {
                    Some(v) => {
                        let t = if quote && is_command_value(key.as_str()) {
                            shell_quote(v.as_str())
                        } else {
                            text::copy_of(v.as_str())
                        };
                        text::push_all(&mut out, text::chars_of(t.as_str()).as_slice());
                        assert(t@ == replacement(c, key@, quote));
                    },
                    None => {
                        if holds_text(&ctx.secrets, key.as_str()) {
                            if secret.is_none() {
                                secret = Some(key);
                            }
                        } else if missing.is_none() {
                            missing = Some(key);
                        }
                    },
                }
                assert(out@ =~= before + replacement(c, key@, quote));
                assert(out@ + replaced(s@, end as int, c, quote) =~= before + (replacement(
                    c,
                    key@,
                    quote,
                ) + replaced(s@, end as int, c, quote)));
                i = end;
            },
            None => {
                out.push(s[i]);
                assert(out@ + replaced(s@, i + 1, c, quote) =~= before + (seq![s@[i as int]]
                    + replaced(s@, i + 1, c, quote)));
                i += 1;
            },
        }
    }
    assert(out@ + Seq::<char>::empty() =~= out@);
    if let Some(key) = secret {
        return Err(RenderError::Secret { key });
    }
    if let Some(key) = missing {
        return Err(RenderError::Unknown { key });
    }
    Ok(text::string_of(out.as_slice()))
}

/// Renders a template as it is, for a configuration.
pub fn render(template: &str, ctx: &TemplateCtx) -> (r: Result<String, RenderError>)
    ensures
        is_rendered(template@, ctx@, false, r),
{
    render_impl(template, ctx, false)
}

/// Renders a template that a shell runs: what the user wrote is quoted.
pub fn render_command(template: &str, ctx: &TemplateCtx) -> (r: Result<String, RenderError>)
    ensures
        is_rendered(template@, ctx@, true, r),
{
    render_impl(template, ctx, true)
}

/// The key of an input in templates.
pub open spec fn input_key(env_var: Seq<char>) -> Seq<char> {
    "input."@ + env_var
}

/// What templates may render of the inputs.
pub open spec fn shown_inputs(vars: Seq<BlueprintInput>, values: Seq<Seq<char>>) -> Seq<
    (Seq<char>, Seq<char>),
>
    decreases vars.len(),
{
    if vars.len() == 0 {
        Seq::empty()
    } else {
        let before = shown_inputs(vars.drop_last(), values);
        if vars.last().user_viewable {
            before.push((input_key(vars.last().env_var@), values[vars.len() - 1]))
        } else {
            before
        }
    }
}

/// Keys of the inputs that templates must not render.
pub open spec fn hidden_inputs(vars: Seq<BlueprintInput>) -> Seq<Seq<char>>
    decreases vars.len(),
{
    if vars.len() == 0 {
        Seq::empty()
    } else {
        let before = hidden_inputs(vars.drop_last());
        if vars.last().user_viewable {
            before
        } else {
            before.push(input_key(vars.last().env_var@))
        }
    }
}

/// A port as text.
pub open spec fn port_text(port: Option<i64>) -> Seq<char> {
    match port {
        Some(p) => text::decimal(p as int),
        None => Seq::empty(),
    }
}

/// What templates may render of the workspace.
pub open spec fn workspace_values(server: Server, dir: Seq<char>) -> Seq<(Seq<char>, Seq<char>)> {
    seq![
        ("workspace.name"@, server.name@),
        ("workspace.uuid"@, server.uuid@),
        ("workspace.memory_mb"@, text::decimal(server.memory_mb as int)),
        ("workspace.disk_mb"@, text::decimal(server.disk_mb as int)),
        ("workspace.cpu_percent"@, text::decimal(server.cpu_percent as int)),
        ("workspace.port"@, port_text(server.port)),
        ("workspace.dir"@, dir),
    ]
}

/// The context for the templates of a workspace.
pub open spec fn context_of(
    vars: Seq<BlueprintInput>,
    values: Seq<Seq<char>>,
    server: Server,
    dir: Seq<char>,
) -> Values {
    Values {
        values: shown_inputs(vars, values) + workspace_values(server, dir),
        secrets: hidden_inputs(vars),
    }
}

/// A number as text.
fn number_text(n: i64) -> (r: String)
    ensures
        r@ == text::decimal(n as int),
{
    text::string_of(text::decimal_i64(n).as_slice())
}

/// A port as text.
fn port_string(port: Option<i64>) -> (r: String)
    ensures
        r@ == port_text(port),
{
    match port {
        Some(p) => number_text(p),
        None => {
            let s = String::new();
            assert(s@ =~= Seq::<char>::empty());
            s
        },
    }
}

/// Adds a pair.
pub(crate) fn add_pair(out: &mut Vec<(String, String)>, key: &str, value: &str)
    ensures
        json::entries_of(final(out)@) == json::entries_of(old(out)@).push((key@, value@)),
{
    let ghost before = json::entries_of(out@);
    out.push((text::copy_of(key), text::copy_of(value)));
    assert(json::entries_of(out@) =~= before.push((key@, value@)));
}

/// The context for the templates of a workspace. Inputs that users must not see
/// never render: the console would show them.
pub fn template_context(
    vars: &Vec<BlueprintInput>,
    values: &Vec<String>,
    server: &Server,
    dir: &str,
) -> (r: TemplateCtx)
    requires
        vars@.len() == values@.len(),
    ensures
        r@ == context_of(vars@, text::views(values@), *server, dir@),
{
    let ghost vs = text::views(values@);
    let mut pairs: Vec<(String, String)> = Vec::new();
    let mut secrets: Vec<String> = Vec::new();
    let mut i: usize = 0;
    assert(json::entries_of(pairs@) =~= shown_inputs(vars@.take(0), vs));
    assert(text::views(secrets@) =~= hidden_inputs(vars@.take(0)));
    while i < vars.len()
        invariant
            i <= vars@.len() == values@.len(),
            vs == text::views(values@),
            json::entries_of(pairs@) == shown_inputs(vars@.take(i as int), vs),
            text::views(secrets@) == hidden_inputs(vars@.take(i as int)),
        decreases vars.len() - i,
    {
        assert(vars@.take(i + 1).drop_last() =~= vars@.take(i as int));
        let mut key = text::copy_of("input.");
        key.append(vars[i].env_var.as_str());
        if vars[i].user_viewable {
            add_pair(&mut pairs, key.as_str(), values[i].as_str());
        } else {
            let ghost before = text::views(secrets@);
            secrets.push(key);
            assert(text::views(secrets@) =~= before.push(key@));
        }
        i += 1;
    }
    assert(vars@.take(i as int) =~= vars@);
    let ghost inputs = json::entries_of(pairs@);
    let memory = number_text(server.memory_mb);
    let disk = number_text(server.disk_mb);
    let cpu = number_text(server.cpu_percent);
    let port = port_string(server.port);
    add_pair(&mut pairs, "workspace.name", server.name.as_str());
    add_pair(&mut pairs, "workspace.uuid", server.uuid.as_str());
    add_pair(&mut pairs, "workspace.memory_mb", memory.as_str());
    add_pair(&mut pairs, "workspace.disk_mb", disk.as_str());
    add_pair(&mut pairs, "workspace.cpu_percent", cpu.as_str());
    add_pair(&mut pairs, "workspace.port", port.as_str());
    add_pair(&mut pairs, "workspace.dir", dir);
    assert(json::entries_of(pairs@) =~= inputs + workspace_values(*server, dir@));
    TemplateCtx { values: pairs, secrets }
}

/// The inputs that the process is told of.
pub open spec fn env_inputs(vars: Seq<BlueprintInput>, values: Seq<Seq<char>>) -> Seq<
    (Seq<char>, Seq<char>),
>
    decreases vars.len(),
{
    if vars.len() == 0 {
        Seq::empty()
    } else {
        let before = env_inputs(vars.drop_last(), values);
        if vars.last().user_viewable || values[vars.len() - 1].len() > 0 {
            before.push((vars.last().env_var@, values[vars.len() - 1]))
        } else {
            before
        }
    }
}

/// What the process is told of its workspace.
pub open spec fn env_workspace(server: Server, dir: Seq<char>) -> Seq<(Seq<char>, Seq<char>)> {
    seq![
        ("HOME"@, dir),
        ("PWD"@, dir),
        ("SERVER_UUID"@, server.uuid@),
        ("SERVER_NAME"@, server.name@),
        ("SERVER_MEMORY"@, text::decimal(server.memory_mb as int)),
        ("SERVER_DISK"@, text::decimal(server.disk_mb as int)),
        ("SERVER_CPU"@, text::decimal(server.cpu_percent as int)),
        ("SERVER_PORT"@, port_text(server.port)),
    ]
}

/// The environment of a server's process.
pub fn env_for_server(
    vars: &Vec<BlueprintInput>,
    values: &Vec<String>,
    server: &Server,
    dir: &str,
) -> (r: Vec<(String, String)>)
    requires
        vars@.len() == values@.len(),
    ensures
        json::entries_of(r@) == env_inputs(vars@, text::views(values@)) + env_workspace(
            *server,
            dir@,
        ),
{
    let ghost vs = text::views(values@);
    let mut env: Vec<(String, String)> = Vec::new();
    let mut i: usize = 0;
    assert(json::entries_of(env@) =~= env_inputs(vars@.take(0), vs));
    while i < vars.len()
        invariant
            i <= vars@.len() == values@.len(),
            vs == text::views(values@),
            json::entries_of(env@) == env_inputs(vars@.take(i as int), vs),
        decreases vars.len() - i,
    {
        assert(vars@.take(i + 1).drop_last() =~= vars@.take(i as int));
        assert(vs[i as int] == values@[i as int]@);
        if vars[i].user_viewable || !values[i].as_str().is_empty() {
            add_pair(&mut env, vars[i].env_var.as_str(), values[i].as_str());
        }
        i += 1;
    }
    assert(vars@.take(i as int) =~= vars@);
    let ghost inputs = json::entries_of(env@);
    let memory = number_text(server.memory_mb);
    let disk = number_text(server.disk_mb);
    let cpu = number_text(server.cpu_percent);
    let port = port_string(server.port);
    add_pair(&mut env, "HOME", dir);
    add_pair(&mut env, "PWD", dir);
    add_pair(&mut env, "SERVER_UUID", server.uuid.as_str());
    add_pair(&mut env, "SERVER_NAME", server.name.as_str());
    add_pair(&mut env, "SERVER_MEMORY", memory.as_str());
    add_pair(&mut env, "SERVER_DISK", disk.as_str());
    add_pair(&mut env, "SERVER_CPU", cpu.as_str());
    add_pair(&mut env, "SERVER_PORT", port.as_str());
    assert(json::entries_of(env@) =~= inputs + env_workspace(*server, dir@));
    env
}

proof fn lemma_shown_key(vars: Seq<BlueprintInput>, values: Seq<Seq<char>>, key: Seq<char>)
    requires
        forall|i: int|
            0 <= i < vars.len() && input_key((#[trigger] vars[i]).env_var@) == key
                ==> !vars[i].user_viewable,
    ensures
        last_value(shown_inputs(vars, values), key) is None,
    decreases vars.len(),
{
    if vars.len() > 0 {
        let less = vars.drop_last();
        assert forall|i: int|
            0 <= i < less.len() && input_key((#[trigger] less[i]).env_var@)
                == key implies !less[i].user_viewable by {
            assert(less[i] == vars[i]);
        }
        lemma_shown_key(less, values, key);
        assert(vars[vars.len() - 1] == vars.last());
        let before = shown_inputs(less, values);
        if vars.last().user_viewable {
            let e = (input_key(vars.last().env_var@), values[vars.len() - 1]);
            assert(before.push(e).drop_last() =~= before);
        }
    }
}

proof fn lemma_last_value_of_both(
    a: Seq<(Seq<char>, Seq<char>)>,
    b: Seq<(Seq<char>, Seq<char>)>,
    key: Seq<char>,
)
    ensures
        last_value(a + b, key) == match last_value(b, key) {
            Some(v) => Some(v),
            None => last_value(a, key),
        },
    decreases b.len(),
{
    if b.len() == 0 {
        assert(a + b =~= a);
    } else {
        assert((a + b).drop_last() =~= a + b.drop_last());
        lemma_last_value_of_both(a, b.drop_last(), key);
    }
}

proof fn lemma_no_input_among_workspace(server: Server, dir: Seq<char>, env_var: Seq<char>)
    ensures
        last_value(workspace_values(server, dir), input_key(env_var)) is None,
{
    reveal_strlit("input.");
    reveal_strlit("workspace.name");
    reveal_strlit("workspace.uuid");
    reveal_strlit("workspace.memory_mb");
    reveal_strlit("workspace.disk_mb");
    reveal_strlit("workspace.cpu_percent");
    reveal_strlit("workspace.port");
    reveal_strlit("workspace.dir");
    let key = input_key(env_var);
    assert(key[0] == 'i');
    let w = workspace_values(server, dir);
    lemma_no_key(w, key);
}

proof fn lemma_no_key(pairs: Seq<(Seq<char>, Seq<char>)>, key: Seq<char>)
    requires
        forall|i: int| 0 <= i < pairs.len() ==> (#[trigger] pairs[i]).0 != key,
    ensures
        last_value(pairs, key) is None,
    decreases pairs.len(),
{
    if pairs.len() > 0 {
        let less = pairs.drop_last();
        assert forall|i: int| 0 <= i < less.len() implies (#[trigger] less[i]).0 != key by {
            assert(less[i] == pairs[i]);
        }
        lemma_no_key(less, key);
        assert(pairs[pairs.len() - 1].0 != key);
    }
}

proof fn lemma_first_hidden_found(keys: Seq<Seq<char>>, ctx: Values, k: int)
    requires
        0 <= k < keys.len(),
        is_hidden(ctx, keys[k]),
    ensures
        first_hidden(keys, ctx) is Some,
    decreases keys.len(),
{
    if !is_hidden(ctx, keys[0]) {
        assert(keys.drop_first()[k - 1] == keys[k]);
        lemma_first_hidden_found(keys.drop_first(), ctx, k - 1);
    }
}

proof fn lemma_hidden_inputs(vars: Seq<BlueprintInput>, i: int)
    requires
        0 <= i < vars.len(),
        !vars[i].user_viewable,
    ensures
        hidden_inputs(vars).contains(input_key(vars[i].env_var@)),
    decreases vars.len(),
{
    let before = hidden_inputs(vars.drop_last());
    let key = input_key(vars[i].env_var@);
    if i < vars.len() - 1 {
        assert(vars.drop_last()[i] == vars[i]);
        lemma_hidden_inputs(vars.drop_last(), i);
        let k = choose|k: int| 0 <= k < before.len() && before[k] == key;
        assert(hidden_inputs(vars)[k] == key);
    } else {
        assert(hidden_inputs(vars)[before.len() as int] == key);
    }
}

/// A template that refers to an input that users must not see is not rendered:
/// its value reaches the process by the environment alone.
pub proof fn law_secret_never_renders(
    vars: Seq<BlueprintInput>,
    values: Seq<Seq<char>>,
    server: Server,
    dir: Seq<char>,
    template: Seq<char>,
    i: int,
    k: int,
    quote: bool,
    r: Result<String, RenderError>,
)
    requires
        0 <= i < vars.len(),
        forall|j: int|
            0 <= j < vars.len() && (#[trigger] vars[j]).env_var@ == vars[i].env_var@
                ==> !vars[j].user_viewable,
        0 <= k < references(template, 0).len(),
        references(template, 0)[k] == input_key(vars[i].env_var@),
        is_rendered(template, context_of(vars, values, server, dir), quote, r),
    ensures
        r matches Err(RenderError::Secret { .. }),
{
    let ctx = context_of(vars, values, server, dir);
    let key = input_key(vars[i].env_var@);
    assert(vars[i].env_var@ == vars[i].env_var@);
    assert forall|j: int|
        0 <= j < vars.len() && input_key((#[trigger] vars[j]).env_var@)
            == key implies !vars[j].user_viewable by {
        let p = "input."@;
        assert(input_key(vars[j].env_var@).skip(p.len() as int) =~= vars[j].env_var@);
        assert(key.skip(p.len() as int) =~= vars[i].env_var@);
    }
    lemma_shown_key(vars, values, key);
    lemma_no_input_among_workspace(server, dir, vars[i].env_var@);
    lemma_last_value_of_both(shown_inputs(vars, values), workspace_values(server, dir), key);
    lemma_hidden_inputs(vars, i);
    lemma_first_hidden_found(references(template, 0), ctx, k);
}

/// Whether the last `k` parts of a path can be taken off one by one, none of them
/// leading up.
pub open spec fn can_take_off(ps: Seq<Seq<char>>, k: int) -> bool {
    k < ps.len() && ps[ps.len() - k - 1] != paths::up()
}

/// The nearest place above a path, or itself, that exists: how many parts lie
/// below it, and its real path. `found` tells the real path of each place, the
/// deepest first; none where it does not exist.
pub open spec fn nearest(ps: Seq<Seq<char>>, found: Seq<Option<String>>, k: int) -> Option<
    (int, Seq<char>),
>
    decreases ps.len() - k,
{
    if 0 <= k < found.len() && found[k] is Some {
        Some((k, found[k]->0@))
    } else if 0 <= k && can_take_off(ps, k) {
        nearest(ps, found, k + 1)
    } else {
        None
    }
}

/// Parts put behind a path, one by one.
pub open spec fn joined_all(base: Seq<char>, tail: Seq<Seq<char>>) -> Seq<char>
    decreases tail.len(),
{
    if tail.len() == 0 {
        base
    } else {
        paths::joined(joined_all(base, tail.drop_last()), tail.last())
    }
}

/// Whether a path, looked at through links, leaves the workspace whose real path
/// is `root`; one that does not exist yet has nothing to leave.
pub open spec fn escapes(
    root: Option<Seq<char>>,
    path: Seq<char>,
    found: Seq<Option<String>>,
) -> bool {
    let ps = paths::parts(path);
    match (root, nearest(ps, found, 0)) {
        (Some(r), Some((k, place))) => !paths::is_within(
            joined_all(place, ps.skip(ps.len() - k)),
            r,
        ),
        _ => false,
    }
}

/// The places whose real paths decide whether a path leaves the workspace: the
/// path itself, then each one above it.
pub fn workspace_probes(dir: &str, relative: &str) -> (r: Vec<String>)
    ensures
        r@.len() > 0,
        forall|k: int|
            0 <= k < r@.len() ==> (#[trigger] r@[k])@ == paths::path_text(
                paths::has_root(paths::joined(dir@, relative@)),
                paths::parts(paths::joined(dir@, relative@)).take(
                    paths::parts(paths::joined(dir@, relative@)).len() - k,
                ),
            ),
        forall|k: int|
            0 <= k < r@.len() - 1 ==> can_take_off(
                paths::parts(paths::joined(dir@, relative@)),
                k,
            ),
        !can_take_off(paths::parts(paths::joined(dir@, relative@)), r@.len() - 1),
{
    let path = paths::join(dir, relative);
    let cs = text::chars_of(path.as_str());
    let root = cs.len() > 0 && cs[0] == '/';
    let mut ps = paths::parts_of(cs.as_slice());
    let ghost all = paths::parts(path@);
    let mut out: Vec<String> = Vec::new();
    let mut go = true;
    assert(all.take(all.len() as int) =~= all);
    while go
        invariant
            all == paths::parts(path@),
            path@ == paths::joined(dir@, relative@),
            root == paths::has_root(path@),
            ps@.len() <= all.len(),
            text::runs(ps@) == all.take(ps@.len() as int),
            forall|k: int|
                0 <= k < out@.len() ==> (#[trigger] out@[k])@ == paths::path_text(
                    root,
                    all.take(all.len() - k),
                ),
            go ==> out@.len() == all.len() - ps@.len(),
            go ==> forall|k: int| 0 <= k < out@.len() ==> can_take_off(all, k),
            !go ==> out@.len() > 0 && (forall|k: int|
                0 <= k < out@.len() - 1 ==> can_take_off(all, k)) && !can_take_off(
                all,
                out@.len() - 1,
            ),
        decreases ps@.len() + (if go {
            1nat
        } else {
            0nat
        }),
    {
        let ghost n = ps@.len();
        out.push(paths::path_of(root, &ps));
        match ps.pop() {
            None => {
                go = false;
            },
            Some(p) => {
                assert(all.take(n as int).last() == p@) by {
                    assert(text::runs(ps@.push(p)).last() == p@);
                }
                assert(all[n - 1] == p@);
                assert(text::runs(ps@) =~= all.take(n - 1)) by {
                    assert forall|j: int| 0 <= j < n - 1 implies text::runs(ps@)[j] == all[j] by {
                        assert(text::runs(ps@.push(p))[j] == all.take(n as int)[j]);
                    }
                }
                if paths::is_up(p.as_slice()) {
                    go = false;
                }
            },
        }
    }
    out
}

/// Checks that a path input, looked at through links, stays within the workspace.
/// `root` is the real path of the workspace, where it exists, and `found` that of
/// each of the `workspace_probes`.
pub fn enforce_workspace_path(
    name: &str,
    dir: &str,
    relative: &str,
    root: &Option<String>,
    found: &Vec<Option<String>>,
) -> (r: Result<(), InputError>)
    ensures
        is_verdict(
            if escapes(
                match *root {
                    Some(s) => Some(s@),
                    None => None,
                },
                paths::joined(dir@, relative@),
                found@,
            ) {
                Some((InputFault::SymlinkEscape, Seq::<char>::empty()))
            } else {
                None
            },
            name@,
            r,
        ),
{
    let real_root = match root {
        Some(s) => s,
        None => {
            return Ok(());
        },
    };
    let path = paths::join(dir, relative);
    let cs = text::chars_of(path.as_str());
    let ps = paths::parts_of(cs.as_slice());
    let ghost all = paths::parts(path@);
    let mut k: usize = 0;
    let mut place: Option<String> = None;
    let mut go = true;
    while go
        invariant
            all == paths::parts(path@),
            text::runs(ps@) == all,
            k <= all.len(),
            go ==> place is None,
            go ==> nearest(all, found@, k as int) == nearest(all, found@, 0),
            !go ==> match place {
                Some(s) => nearest(all, found@, 0) == Some((k as int, s@)),
                None => nearest(all, found@, 0) is None,
            },
        decreases all.len() - k + (if go {
            1int
        } else {
            0int
        }),
    {
        let hit = if k < found.len() {
            match &found[k] {
                Some(s) => Some(text::copy_of(s.as_str())),
                None => None,
            }
        } else {
            None
        };
        if hit.is_some() {
            place = hit;
            go = false;
        } else if k < ps.len() {
            assert(all[all.len() - k - 1] == ps@[ps@.len() - k - 1]@);
            if paths::is_up(ps[ps.len() - k - 1].as_slice()) {
                go = false;
            } else {
                k += 1;
            }
        } else {
            go = false;
        }
    }
    match place {
        None => Ok(()),
        Some(base) => {
            let ghost start = base@;
            let ghost tail = all.skip(all.len() - k);
            let mut acc = base;
            let mut i: usize = ps.len() - k;
            assert(tail.take(0) =~= Seq::<Seq<char>>::empty());
            while i < ps.len()
                invariant
                    ps@.len() - k <= i <= ps@.len(),
                    k <= ps@.len(),
                    text::runs(ps@) == all,
                    tail == all.skip(all.len() - k),
                    acc@ == joined_all(start, tail.take(i - (ps@.len() - k))),
                decreases ps.len() - i,
            {
                let ghost j = i - (ps@.len() - k);
                assert(tail.take(j + 1).drop_last() =~= tail.take(j));
                assert(tail[j] == all[i as int] && all[i as int] == ps@[i as int]@);
                let part = text::string_of(ps[i].as_slice());
                acc = paths::join(acc.as_str(), part.as_str());
                i += 1;
            }
            assert(tail.take(k as int) =~= tail);
            if paths::within(acc.as_str(), real_root.as_str()) {
                Ok(())
            } else {
                Err(refuse_plain(InputFault::SymlinkEscape, name))
            }
        },
    }
}

/// What was found out about the value of an input: whether it is a number within
/// bounds, and, for a path, what lies behind links.
#[derive(Debug, Clone)]
pub struct Findings {
    pub number: NumberVerdict,
    pub root: Option<String>,
    pub found: Vec<Option<String>>,
}

/// Whether an answer is that of the checks of one value.
pub open spec fn is_value_answer(
    var: BlueprintInput,
    value: Seq<char>,
    dir: Seq<char>,
    f: Findings,
    r: Result<(), InputError>,
) -> bool {
    exists|p: PatternVerdict, u: UrlVerdict|
        #![trigger value_fault(var, value, f.number, p, u)]
        is_pattern_verdict(var, value, p) && is_url_verdict(text::trimmed(value), u) && is_verdict(
            match value_fault(var, value, f.number, p, u) {
                Some(x) => Some(x),
                None => if var.kind is Path && text::trimmed(value).len() > 0 && escapes(
                    match f.root {
                        Some(s) => Some(s@),
                        None => None,
                    },
                    paths::joined(dir, text::trimmed(value)),
                    f.found@,
                ) {
                    Some((InputFault::SymlinkEscape, Seq::<char>::empty()))
                } else {
                    None
                },
            },
            var.env_var@,
            r,
        )
}

/// Checks the value of one input before it is used.
fn validate_one(var: &BlueprintInput, value: &str, dir: &str, f: &Findings) -> (r: Result<
    (),
    InputError,
>)
    ensures
        is_value_answer(*var, value@, dir@, *f, r),
{
    let p = pattern_verdict(var, value);
    let t = text::trim_string(value);
    let u = url_verdict(t.as_str());
    let ghost fault = value_fault(*var, value@, f.number, p, u);
    match check_value(var, value, &f.number, &p, &u) {
        Err(e) => Err(e),
        Ok(_) => {
            let is_path = match &var.kind {
                InputKind::Path { .. } => true,
                _ => false,
            };
            if is_path && !t.as_str().is_empty() {
                enforce_workspace_path(var.env_var.as_str(), dir, t.as_str(), &f.root, &f.found)
            } else {
                Ok(())
            }
        },
    }
}

/// Whether an answer is that of the checks of some values: the first that is
/// refused decides.
pub open spec fn is_values_answer(
    vars: Seq<BlueprintInput>,
    values: Seq<Seq<char>>,
    dir: Seq<char>,
    fs: Seq<Findings>,
    r: Result<(), InputError>,
) -> bool {
    match r {
        Ok(_) => forall|i: int|
            0 <= i < vars.len() ==> is_value_answer(
                #[trigger] vars[i],
                values[i],
                dir,
                fs[i],
                Ok(()),
            ),
        Err(e) => exists|i: int|
            0 <= i < vars.len() && is_value_answer(
                #[trigger] vars[i],
                values[i],
                dir,
                fs[i],
                Err(e),
            ) && forall|j: int|
                0 <= j < i ==> is_value_answer(#[trigger] vars[j], values[j], dir, fs[j], Ok(())),
    }
}

/// Checks the value of every input, the owner's or the one declared, before any
/// is put into a script, a command or a configuration.
pub fn validate_resolved_variables(
    vars: &Vec<BlueprintInput>,
    values: &Vec<String>,
    dir: &str,
    findings: &Vec<Findings>,
) -> (r: Result<(), InputError>)
    requires
        vars@.len() == values@.len(),
        vars@.len() == findings@.len(),
    ensures
        is_values_answer(vars@, text::views(values@), dir@, findings@, r),
{
    let ghost vs = text::views(values@);
    let mut i: usize = 0;
    while i < vars.len()
        invariant
            i <= vars@.len(),
            vars@.len() == values@.len(),
            vars@.len() == findings@.len(),
            vs == text::views(values@),
            forall|j: int|
                0 <= j < i ==> is_value_answer(
                    #[trigger] vars@[j],
                    vs[j],
                    dir@,
                    findings@[j],
                    Ok(()),
                ),
        decreases vars.len() - i,
    {
        assert(vs[i as int] == values@[i as int]@);
        match validate_one(&vars[i], values[i].as_str(), dir, &findings[i]) {
            Err(e) => {
                assert(is_value_answer(vars@[i as int], vs[i as int], dir@, findings@[i as int], Err(e)));
                return Err(e);
            },
            Ok(_) => {},
        }
        i += 1;
    }
    Ok(())
}

/// Why a command, a script or a configuration was not made.
#[derive(Debug, Clone)]
pub enum LaunchError {
    Input(InputError),
    Render(RenderError),
    /// The default configuration of a blueprint is no document.
    Config { name: String, reason: String },
}

impl LaunchError {
    /// The message of a refusal.
    pub open spec fn text_of(self) -> Seq<char> {
        match self {
            LaunchError::Input(error) => error.text_of(),
            LaunchError::Render(error) => error.text_of(),
            LaunchError::Config { name, reason } => "blueprint '"@ + name@
                + "' declares invalid default_config json: "@ + reason@,
        }
    }

    /// The message of a refusal.
    pub fn message(&self) -> (r: String)
        ensures
            r@ == self.text_of(),
    {
        match self {
            LaunchError::Input(error) => error.message(),
            LaunchError::Render(error) => error.message(),
            LaunchError::Config { name, reason } => {
                let mut s = text::copy_of("blueprint '");
                s.append(name.as_str());
                s.append("' declares invalid default_config json: ");
                s.append(reason.as_str());
                s
            },
        }
    }
}

/// Everything that a template of a workspace is rendered from: the inputs with
/// their values and what was found out about these, the server and its directory.
#[derive(Debug, Clone)]
pub struct Workspace {
    pub vars: Vec<BlueprintInput>,
    pub values: Vec<String>,
    pub findings: Vec<Findings>,
    pub server: Server,
    pub dir: String,
}

impl Workspace {
    /// One value and one finding for each input.
    pub open spec fn wf(self) -> bool {
        self.vars@.len() == self.values@.len() && self.vars@.len() == self.findings@.len()
    }

    /// The context for templates.
    pub open spec fn context(self) -> Values {
        context_of(self.vars@, text::views(self.values@), self.server, self.dir@)
    }
}

/// Whether an answer is what checking the inputs, then rendering a template,
/// gives.
pub open spec fn is_launch_answer(
    w: Workspace,
    template: Seq<char>,
    quote: bool,
    r: Result<String, LaunchError>,
) -> bool {
    match r {
        Err(LaunchError::Input(error)) => is_values_answer(
            w.vars@,
            text::views(w.values@),
            w.dir@,
            w.findings@,
            Err(error),
        ),
        Err(LaunchError::Render(error)) => is_values_answer(
            w.vars@,
            text::views(w.values@),
            w.dir@,
            w.findings@,
            Ok(()),
        ) && is_rendered(template, w.context(), quote, Err(error)),
        Err(LaunchError::Config { .. }) => false,
        Ok(s) => is_values_answer(w.vars@, text::views(w.values@), w.dir@, w.findings@, Ok(()))
            && is_rendered(template, w.context(), quote, Ok(s)),
    }
}

/// Checks the inputs, then renders a template.
fn check_and_render(w: &Workspace, template: &str, quote: bool) -> (r: Result<String, LaunchError>)
    requires
        w.wf(),
    ensures
        is_launch_answer(*w, template@, quote, r),
{
    match validate_resolved_variables(&w.vars, &w.values, w.dir.as_str(), &w.findings) {
        Err(error) => {
            return Err(LaunchError::Input(error));
        },
        Ok(_) => {},
    }
    let ctx = template_context(&w.vars, &w.values, &w.server, w.dir.as_str());
    match render_impl(template, &ctx, quote) {
        Err(error) => Err(LaunchError::Render(error)),
        Ok(s) => Ok(s),
    }
}

/// The command that launches a server: its own, else its blueprint's, with every
/// placeholder replaced.
pub fn resolve_startup(w: &Workspace, blueprint_startup: &str) -> (r: Result<String, LaunchError>)
    requires
        w.wf(),
    ensures
        is_launch_answer(
            *w,
            if w.server.startup@.len() == 0 {
                blueprint_startup@
            } else {
                w.server.startup@
            },
            true,
            r,
        ),
{
    if w.server.startup.as_str().is_empty() {
        check_and_render(w, blueprint_startup, true)
    } else {
        check_and_render(w, w.server.startup.as_str(), true)
    }
}

/// The configuration of the blueprint `name`, given what was read in its text.
pub fn judge_config(name: &str, read: Result<Json, String>) -> (r: Result<Json, LaunchError>)
    ensures
        match read {
            Ok(j) => r == Ok::<Json, LaunchError>(j),
            Err(e) => r matches Err(LaunchError::Config { name: n, reason }) && n@ == name@
                && reason == e,
        },
{
    match read {
        Ok(j) => Ok(j),
        Err(reason) => Err(LaunchError::Config { name: text::copy_of(name), reason }),
    }
}

/// The default configuration that the blueprint `name` declares, rendered; none
/// where it declares none. What is rendered must be a document.
pub fn build_default_config(w: &Workspace, name: &str, config: &Option<String>) -> (r: Result<
    Option<Json>,
    LaunchError,
>)
    requires
        w.wf(),
    ensures
        match *config {
            None => r == Ok::<Option<Json>, LaunchError>(None),
            Some(c) => match r {
                Ok(Some(j)) => exists|s: String| #[trigger]
                    is_launch_answer(*w, c@, false, Ok(s)) && json::parsed(s@) == Ok::<
                        json::Doc,
                        Seq<char>,
                    >(j@),
                Ok(None) => false,
                Err(LaunchError::Config { name: n, reason }) => n@ == name@ && exists|s: String|
                    #[trigger]
                    is_launch_answer(*w, c@, false, Ok(s)) && json::parsed(s@) == Err::<
                        json::Doc,
                        Seq<char>,
                    >(reason@),
                Err(e) => is_launch_answer(*w, c@, false, Err(e)),
            },
        },
{
    match config {
        None => Ok(None),
        Some(c) => match check_and_render(w, c.as_str(), false) {
            Ok(s) => {
                assert(is_launch_answer(*w, c@, false, Ok(s)));
                match judge_config(name, Json::parse(s.as_str())) {
                    Ok(j) => Ok(Some(j)),
                    Err(e) => Err(e),
                }
            },
            Err(e) => Err(e),
        },
    }
}

/// Why a blueprint's inputs were refused. Inputs are counted from one.
#[derive(Debug, Clone)]
pub enum DeclError {
    NoName { index: usize },
    Duplicate { index: usize, name: String },
    Pattern { name: String, reason: String },
    NoOptions { name: String },
    Default { name: String, error: InputError },
}

impl DeclError {
    /// The message of a refusal.
    pub open spec fn text_of(self) -> Seq<char> {
        match self {
            DeclError::NoName { index } => "variable #"@ + text::decimal(index as int)
                + ": env_var must not be empty"@,
            DeclError::Duplicate { index, name } => "variable #"@ + text::decimal(index as int)
                + ": env_var '"@ + name@ + "' is declared more than once"@,
            DeclError::Pattern { name, reason } => "variable '"@ + name@ + "': invalid pattern: "@
                + reason@,
            DeclError::NoOptions { name } => "variable '"@ + name@
                + "': choice must declare at least one option"@,
            DeclError::Default { name, error } => "variable '"@ + name@
                + "': default_value is invalid: "@ + error.text_of(),
        }
    }

    /// The message of a refusal.
    pub fn message(&self) -> (r: String)
        ensures
            r@ == self.text_of(),
    {
        match self {
            DeclError::NoName { index } => {
                let mut s = text::copy_of("variable #");
                let n = text::string_of(text::decimal_u64(*index as u64).as_slice());
                s.append(n.as_str());
                s.append(": env_var must not be empty");
                s
            },
            DeclError::Duplicate { index, name } => {
                let mut s = text::copy_of("variable #");
                let n = text::string_of(text::decimal_u64(*index as u64).as_slice());
                s.append(n.as_str());
                s.append(": env_var '");
                s.append(name.as_str());
                s.append("' is declared more than once");
                s
            },
            DeclError::Pattern { name, reason } => {
                let mut s = text::copy_of("variable '");
                s.append(name.as_str());
                s.append("': invalid pattern: ");
                s.append(reason.as_str());
                s
            },
            DeclError::NoOptions { name } => {
                let mut s = text::copy_of("variable '");
                s.append(name.as_str());
                s.append("': choice must declare at least one option");
                s
            },
            DeclError::Default { name, error } => {
                let mut s = text::copy_of("variable '");
                s.append(name.as_str());
                s.append("': default_value is invalid: ");
                let m = error.message();
                s.append(m.as_str());
                s
            },
        }
    }
}

/// Whether an input shares its name with one before it.
pub open spec fn is_duplicate(vars: Seq<BlueprintInput>, i: int) -> bool {
    exists|j: int| 0 <= j < i && (#[trigger] vars[j]).env_var@ == vars[i].env_var@
}

/// Why the pattern of an input is refused, if it has one that is.
pub open spec fn bad_pattern(var: BlueprintInput) -> Option<Seq<char>> {
    match var.kind {
        InputKind::Text { pattern: Some(p), .. } => regex_error(p@),
        _ => None,
    }
}

/// Whether an input offers a choice of nothing.
pub open spec fn no_options(var: BlueprintInput) -> bool {
    match var.kind {
        InputKind::Choice { options } => options@.len() == 0,
        _ => false,
    }
}

/// Whether an answer is that of the checks of one declared input.
pub open spec fn is_decl_answer(
    vars: Seq<BlueprintInput>,
    i: int,
    number: NumberVerdict,
    r: Result<(), DeclError>,
) -> bool {
    let var = vars[i];
    if text::trimmed(var.env_var@).len() == 0 {
        r matches Err(DeclError::NoName { index }) && index == i + 1
    } else if is_duplicate(vars, i) {
        r matches Err(DeclError::Duplicate { index, name }) && index == i + 1 && name@
            == var.env_var@
    } else if bad_pattern(var) is Some {
        r matches Err(DeclError::Pattern { name, reason }) && name@ == var.env_var@ && reason@
            == bad_pattern(var)->0
    } else if no_options(var) {
        r matches Err(DeclError::NoOptions { name }) && name@ == var.env_var@
    } else {
        exists|p: PatternVerdict, u: UrlVerdict|
            #![trigger value_fault(var, var.default_value@, number, p, u)]
            is_pattern_verdict(var, var.default_value@, p) && is_url_verdict(
                text::trimmed(var.default_value@),
                u,
            ) && {
                let fault = value_fault(var, var.default_value@, number, p, u);
                match r {
                    Ok(_) => fault is None,
                    Err(DeclError::Default { name, error }) => name@ == var.env_var@ && is_verdict(
                        fault,
                        var.env_var@,
                        Err(error),
                    ),
                    _ => false,
                }
            }
    }
}

/// Checks one declared input.
fn validate_decl(vars: &Vec<BlueprintInput>, i: usize, number: &NumberVerdict) -> (r: Result<
    (),
    DeclError,
>)
    requires
        i < vars@.len(),
    ensures
        is_decl_answer(vars@, i as int, *number, r),
{
    let n: usize = vars.len();
    let var = &vars[i];
    let name = text::copy_of(var.env_var.as_str());
    let nc = text::chars_of(var.env_var.as_str());
    if text::trim(nc.as_slice()).len() == 0 {
        return Err(DeclError::NoName { index: i + 1 });
    }
    let mut j: usize = 0;
    while j < i
        invariant
            j <= i < n == vars@.len(),
            var == vars@[i as int],
            name@ == var.env_var@,
            text::trimmed(var.env_var@).len() > 0,
            forall|k: int| 0 <= k < j ==> (#[trigger] vars@[k]).env_var@ != var.env_var@,
        decreases i - j,
    {
        if text::same(vars[j].env_var.as_str(), var.env_var.as_str()) {
            assert(is_duplicate(vars@, i as int));
            return Err(DeclError::Duplicate { index: i + 1, name });
        }
        j += 1;
    }
    assert(!is_duplicate(vars@, i as int));
    if let InputKind::Text { pattern: Some(p), .. } = &var.kind {
        if let Some(reason) = regex_refusal(p.as_str()) {
            return Err(DeclError::Pattern { name, reason });
        }
    }
    if let InputKind::Choice { options } = &var.kind {
        if options.len() == 0 {
            return Err(DeclError::NoOptions { name });
        }
    }
    let value = var.default_value.as_str();
    let p = pattern_verdict(var, value);
    let t = text::trim_string(value);
    let u = url_verdict(t.as_str());
    let ghost fault = value_fault(*var, value@, *number, p, u);
    match check_value(var, value, number, &p, &u) {
        Ok(_) => Ok(()),
        Err(error) => Err(DeclError::Default { name, error }),
    }
}

/// Whether an answer is that of the checks of all declared inputs: the first that
/// is refused decides.
pub open spec fn is_decls_answer(
    vars: Seq<BlueprintInput>,
    numbers: Seq<NumberVerdict>,
    r: Result<(), DeclError>,
) -> bool {
    match r {
        Ok(_) => forall|i: int|
            0 <= i < vars.len() ==> is_decl_answer(vars, i, #[trigger] numbers[i], Ok(())),
        Err(e) => exists|i: int|
            0 <= i < vars.len() && is_decl_answer(vars, i, #[trigger] numbers[i], Err(e))
                && forall|j: int|
                0 <= j < i ==> is_decl_answer(vars, j, #[trigger] numbers[j], Ok(())),
    }
}

/// Checks a blueprint's declarations of inputs. Whether each default is a number
/// within its bounds is found out elsewhere and given.
pub fn validate_inputs(vars: &Vec<BlueprintInput>, numbers: &Vec<NumberVerdict>) -> (r: Result<
    (),
    DeclError,
>)
    requires
        vars@.len() == numbers@.len(),
    ensures
        is_decls_answer(vars@, numbers@, r),
{
    let mut i: usize = 0;
    while i < vars.len()
        invariant
            i <= vars@.len() == numbers@.len(),
            forall|j: int| 0 <= j < i ==> is_decl_answer(vars@, j, #[trigger] numbers@[j], Ok(())),
        decreases vars.len() - i,
    {
        match validate_decl(vars, i, &numbers[i]) {
            Err(e) => {
                assert(is_decl_answer(vars@, i as int, numbers@[i as int], Err(e)));
                return Err(e);
            },
            Ok(_) => {},
        }
        i += 1;
    }
    Ok(())
}

/// Inputs that were accepted have names, and no two share one.
pub proof fn law_accepted_inputs_have_names_of_their_own(
    vars: Seq<BlueprintInput>,
    numbers: Seq<NumberVerdict>,
    i: int,
    j: int,
)
    requires
        vars.len() == numbers.len(),
        is_decls_answer(vars, numbers, Ok(())),
        0 <= i < j < vars.len(),
    ensures
        vars[i].env_var@ != vars[j].env_var@,
        text::trimmed(vars[i].env_var@).len() > 0,
{
    assert(is_decl_answer(vars, i, numbers[i], Ok(())));
    assert(is_decl_answer(vars, j, numbers[j], Ok(())));
    if vars[i].env_var@ == vars[j].env_var@ {
        assert(is_duplicate(vars, j));
    }
}

/// Longest document of a blueprint, in bytes.
pub const MAX_BLUEPRINT_IMPORT_BYTES: usize = 1024 * 1024;

/// How a workspace is set up.
#[derive(Debug, Clone)]
pub struct InstallScript {
    pub script: String,
}

/// A blueprint as it comes in a document.
#[derive(Debug)]
pub struct BlueprintImport {
    pub name: String,
    pub description: String,
    pub author: String,
    pub category: String,
    pub runtime_hint: String,
    pub startup: String,
    pub config: Option<Json>,
    pub install: Option<InstallScript>,
    pub variables: Vec<BlueprintInput>,
    pub stop: String,
}

/// The runtime of a blueprint that names none.
pub fn default_runtime() -> (r: String)
    ensures
        r@ == "native"@,
{
    text::copy_of("native")
}

/// The stop command of a blueprint that names none.
pub fn default_stop() -> (r: String)
    ensures
        r@ == "stop"@,
{
    text::copy_of("stop")
}

/// Why a document was refused.
#[derive(Debug, Clone)]
pub enum ImportError {
    TooLarge,
    NoStartup,
    Inputs(DeclError),
}

impl ImportError {
    /// The message of a refusal.
    pub open spec fn text_of(self) -> Seq<char> {
        match self {
            ImportError::TooLarge => "blueprint import exceeds 1048576 byte limit"@,
            ImportError::NoStartup => "blueprint import must declare a non-empty startup command"@,
            ImportError::Inputs(e) => e.text_of(),
        }
    }

    /// The message of a refusal.
    pub fn message(&self) -> (r: String)
        ensures
            r@ == self.text_of(),
    {
        match self {
            ImportError::TooLarge => text::copy_of("blueprint import exceeds 1048576 byte limit"),
            ImportError::NoStartup => text::copy_of(
                "blueprint import must declare a non-empty startup command",
            ),
            ImportError::Inputs(e) => e.message(),
        }
    }
}

/// Admits a document for reading, by its size.
pub fn check_import_size(json: &str) -> (r: Result<(), ImportError>)
    ensures
        match r {
            Ok(_) => text::byte_len(json@) <= MAX_BLUEPRINT_IMPORT_BYTES,
            Err(e) => text::byte_len(json@) > MAX_BLUEPRINT_IMPORT_BYTES && e is TooLarge,
        },
{
    if text::byte_length(json) > MAX_BLUEPRINT_IMPORT_BYTES {
        return Err(ImportError::TooLarge);
    }
    Ok(())
}

/// Checks a document that was read: it needs a command to launch, and its inputs
/// must pass the same checks as those of a blueprint that is saved.
pub fn parse_blueprint_json(parsed: &BlueprintImport, numbers: &Vec<NumberVerdict>) -> (r: Result<
    (),
    ImportError,
>)
    requires
        parsed.variables@.len() == numbers@.len(),
    ensures
        match r {
            Ok(_) => text::trimmed(parsed.startup@).len() > 0 && is_decls_answer(
                parsed.variables@,
                numbers@,
                Ok(()),
            ),
            Err(ImportError::NoStartup) => text::trimmed(parsed.startup@).len() == 0,
            Err(ImportError::Inputs(e)) => text::trimmed(parsed.startup@).len() > 0
                && is_decls_answer(parsed.variables@, numbers@, Err(e)),
            Err(ImportError::TooLarge) => false,
        },
{
    let cs = text::chars_of(parsed.startup.as_str());
    if text::trim(cs.as_slice()).len() == 0 {
        return Err(ImportError::NoStartup);
    }
    match validate_inputs(&parsed.variables, numbers) {
        Ok(_) => Ok(()),
        Err(e) => Err(ImportError::Inputs(e)),
    }
}

/// How long a setup may take, in milliseconds.
pub const INSTALL_TIMEOUT_MS: u64 = 600_000;

/// What a setup may use.
#[derive(Debug, Clone, Copy, PartialEq, Eq, Structural)]
pub struct InstallLimits {
    pub memory_bytes: u64,
    pub cpu_percent: u64,
    pub pids_max: u64,
}

/// Most memory of a server, in mebibytes, that can be counted in bytes.
pub const MAX_COUNTED_MB: i64 = 17_592_186_044_415;

/// What the setup of a server may use: as much as the server, and never less than
/// a setup needs.
pub fn install_limits(server: &Server) -> (r: InstallLimits)
    requires
        server.memory_mb <= MAX_COUNTED_MB,
    ensures
        r.memory_bytes == (if server.memory_mb < 256 {
            256
        } else {
            server.memory_mb as int
        }) * 1_048_576,
        r.cpu_percent == (if server.cpu_percent < 25 {
            25
        } else {
            server.cpu_percent as int
        }),
        r.pids_max == 256,
{
    let mb: u64 = if server.memory_mb < 256 {
        256
    } else {
        server.memory_mb as u64
    };
    let cpu: u64 = if server.cpu_percent < 25 {
        25
    } else {
        server.cpu_percent as u64
    };
    InstallLimits { memory_bytes: mb * 1_048_576, cpu_percent: cpu, pids_max: 256 }
}

/// A setup that is ready to run.
#[derive(Debug, Clone)]
pub struct InstallPlan {
    pub script: String,
    pub env: Vec<(String, String)>,
    pub limits: InstallLimits,
    /// Name of the sandbox.
    pub sandbox: String,
}

/// Whether a blueprint has something to run as setup.
pub open spec fn has_script(script: Option<String>) -> bool {
    script is Some && text::trimmed(script->0@).len() > 0
}

/// Whether there is a script to run.
pub fn is_scripted(script: &Option<String>) -> (r: bool)
    ensures
        r == has_script(*script),
{
    match script {
        None => false,
        Some(s) => {
            let cs = text::chars_of(s.as_str());
            text::trim(cs.as_slice()).len() > 0
        },
    }
}

/// Plans the setup of a workspace; none where the blueprint has no script.
pub fn run_install(w: &Workspace, script: &Option<String>) -> (r: Result<
    Option<InstallPlan>,
    LaunchError,
>)
    requires
        w.wf(),
        has_script(*script) ==> w.server.memory_mb <= MAX_COUNTED_MB,
    ensures
        if !has_script(*script) {
            r == Ok::<Option<InstallPlan>, LaunchError>(None)
        } else {
            match r {
                Ok(None) => false,
                Ok(Some(p)) => is_launch_answer(*w, script->0@, true, Ok(p.script))
                    && json::entries_of(p.env@) == env_inputs(w.vars@, text::views(w.values@))
                    + env_workspace(w.server, w.dir@) && p.sandbox@ == w.server.uuid@
                    + "-install"@ && p.limits.pids_max == 256 && p.limits.memory_bytes == (
                if w.server.memory_mb < 256 {
                    256
                } else {
                    w.server.memory_mb as int
                }) * 1_048_576 && p.limits.cpu_percent == (if w.server.cpu_percent < 25 {
                    25
                } else {
                    w.server.cpu_percent as int
                }),
                Err(e) => is_launch_answer(*w, script->0@, true, Err(e)),
            }
        },
{
    if !is_scripted(script) {
        return Ok(None);
    }
    let template = match script {
        None => {
            return Ok(None);
        },
        Some(s) => s,
    };
    match check_and_render(w, template.as_str(), true) {
        Err(e) => Err(e),
        Ok(rendered) => {
            let env = env_for_server(&w.vars, &w.values, &w.server, w.dir.as_str());
            let mut sandbox = text::copy_of(w.server.uuid.as_str());
            sandbox.append("-install");
            Ok(
                Some(
                    InstallPlan { script: rendered, env, limits: install_limits(&w.server), sandbox },
                ),
            )
        },
    }
}

/// Bytes of a setup's output that are kept to report a failure.
pub const INSTALL_TAIL_BYTES: usize = 400;

/// The longest end of a text that takes at most `n` bytes.
pub open spec fn text_tail(s: Seq<char>, n: nat) -> Seq<char>
    decreases s.len(),
{
    if s.len() == 0 || text::byte_len(s) <= n {
        s
    } else {
        text_tail(s.drop_first(), n)
    }
}

proof fn lemma_first_byte_len(s: Seq<char>)
    requires
        s.len() > 0,
    ensures
        text::byte_len(s) == text::char_width(s[0]) + text::byte_len(s.drop_first()),
{
    let one = seq![s[0]];
    text::lemma_byte_len_add(one, s.drop_first());
    assert(one + s.drop_first() =~= s);
    assert(one.drop_last() =~= Seq::<char>::empty());
    assert(text::byte_len(one) == text::char_width(s[0])) by {
        reveal_with_fuel(text::byte_len, 2);
    }
}

proof fn lemma_text_tail(s: Seq<char>, n: nat)
    ensures
        text::byte_len(text_tail(s, n)) <= n,
        text_tail(s, n).is_suffix_of(s),
    decreases s.len(),
{
    if s.len() > 0 && text::byte_len(s) > n {
        lemma_text_tail(s.drop_first(), n);
        let t = text_tail(s, n);
        assert(t =~= s.drop_first().skip(s.drop_first().len() - t.len()));
        assert(t =~= s.skip(s.len() - t.len()));
    }
}

/// The end of a text, without as many first characters as it takes to leave at
/// most `n` bytes.
fn cut_front(s: &[char], n: usize) -> (r: Vec<char>)
    requires
        text::byte_len(s@) <= usize::MAX,
    ensures
        r@ == text_tail(s@, n as nat),
{
    let mut left: usize = 0;
    let mut k: usize = s.len();
    assert(s@.skip(k as int) =~= Seq::<char>::empty());
    while k > 0
        invariant
            k <= s@.len(),
            left == text::byte_len(s@.skip(k as int)),
            text::byte_len(s@) <= usize::MAX,
        decreases k,
    {
        proof {
            lemma_first_byte_len(s@.skip(k - 1));
            assert(s@.skip(k - 1).drop_first() =~= s@.skip(k as int));
            assert(s@.take(k - 1) + s@.skip(k - 1) =~= s@);
            text::lemma_byte_len_add(s@.take(k - 1), s@.skip(k - 1));
        }
        k -= 1;
        left += text::width_of(s[k]);
    }
    assert(s@.skip(0) =~= s@);
    let mut i: usize = 0;
    while i < s.len() && left > n
        invariant
            i <= s@.len(),
            left == text::byte_len(s@.skip(i as int)),
            text_tail(s@.skip(i as int), n as nat) == text_tail(s@, n as nat),
        decreases s.len() - i,
    {
        proof {
            lemma_first_byte_len(s@.skip(i as int));
            assert(s@.skip(i as int).drop_first() =~= s@.skip(i + 1));
        }
        left -= text::width_of(s[i]);
        i += 1;
    }
    let mut out: Vec<char> = Vec::new();
    text::push_all(&mut out, slice_subrange(s, i, s.len()));
    assert(out@ =~= s@.skip(i as int));
    out
}

/// Keeps the end of a setup's output as more comes in.
pub fn keep_tail(tail: &str, more: &str) -> (r: String)
    requires
        text::byte_len(tail@ + more@) <= usize::MAX,
    ensures
        r@ == text_tail(tail@ + more@, INSTALL_TAIL_BYTES as nat),
        text::byte_len(r@) <= INSTALL_TAIL_BYTES,
        r@.is_suffix_of(tail@ + more@),
{
    proof {
        lemma_text_tail(tail@ + more@, INSTALL_TAIL_BYTES as nat);
    }
    let mut all = text::chars_of(tail);
    text::push_all(&mut all, text::chars_of(more).as_slice());
    assert(all@ =~= tail@ + more@);
    text::string_of(cut_front(all.as_slice(), INSTALL_TAIL_BYTES).as_slice())
}

/// What waiting for a setup comes to.
#[derive(Debug, Clone, Copy, PartialEq, Eq, Structural)]
pub enum WaitAction {
    Finished,
    /// It took too long: kill it.
    Kill,
    /// Look again soon.
    Sleep,
}

/// Waits for a setup, with a limit on its time.
pub fn wait_install(exited: bool, elapsed_ms: u64) -> (r: WaitAction)
    ensures
        r == (if exited {
            WaitAction::Finished
        } else if elapsed_ms >= INSTALL_TIMEOUT_MS {
            WaitAction::Kill
        } else {
            WaitAction::Sleep
        }),
{
    if exited {
        WaitAction::Finished
    } else if elapsed_ms >= INSTALL_TIMEOUT_MS {
        WaitAction::Kill
    } else {
        WaitAction::Sleep
    }
}

/// What users are told of a setup.
#[derive(Debug, Clone)]
pub struct InstallReport {
    pub level: String,
    pub title: String,
    pub body: String,
    /// Why the setup failed, if it did.
    pub error: Option<String>,
}

/// The last line of a setup's output.
pub open spec fn failure_line(tail: Seq<char>) -> Seq<char> {
    match text::last_line(tail) {
        Some(l) => l,
        None => "unknown error"@,
    }
}

/// What users are told of a setup that has ended.
pub fn install_report(server_name: &str, timed_out: bool, success: bool, tail: &str) -> (r:
    InstallReport)
    ensures
        if timed_out {
            &&& r.level@ == "error"@
            &&& r.title@ == "Install timed out for '"@ + server_name@ + "'"@
            &&& r.body@ == "install script exceeded the 600 second limit"@
            &&& r.error is Some
            &&& r.error->0@ == "install script timed out after 600 seconds"@
        } else if !success {
            &&& r.level@ == "error"@
            &&& r.title@ == "Install failed for '"@ + server_name@ + "'"@
            &&& r.body@ == failure_line(tail@)
            &&& r.error is Some
            &&& r.error->0@ == "install script failed: "@ + failure_line(tail@)
        } else {
            &&& r.level@ == "success"@
            &&& r.title@ == "'"@ + server_name@ + "' installed"@
            &&& r.body@ == "Install script completed"@
            &&& r.error is None
        },
{
    if timed_out {
        let mut title = text::copy_of("Install timed out for '");
        title.append(server_name);
        title.append("'");
        return InstallReport {
            level: text::copy_of("error"),
            title,
            body: text::copy_of("install script exceeded the 600 second limit"),
            error: Some(text::copy_of("install script timed out after 600 seconds")),
        };
    }
    if !success {
        let cs = text::chars_of(tail);
        let line = match text::last_line_of(cs.as_slice()) {
            Some(l) => text::string_of(l.as_slice()),
            None => text::copy_of("unknown error"),
        };
        let mut title = text::copy_of("Install failed for '");
        title.append(server_name);
        title.append("'");
        let mut error = text::copy_of("install script failed: ");
        error.append(line.as_str());
        return InstallReport {
            level: text::copy_of("error"),
            title,
            body: line,
            error: Some(error),
        };
    }
    let mut title = text::copy_of("'");
    title.append(server_name);
    title.append("' installed");
    InstallReport {
        level: text::copy_of("success"),
        title,
        body: text::copy_of("Install script completed"),
        error: None,
    }
}

} // verus!
