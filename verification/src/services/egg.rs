//! Eggs: their variables, their startup commands and their setup.
use crate::json;
use crate::json::Json;
use crate::models::Server;
use crate::services::blueprint;
use crate::services::blueprint::{InstallPlan, NumberVerdict};
use crate::text;
use vstd::prelude::*;
use vstd::string::*;

verus! {

/// A variable that an egg declares.
#[derive(Debug, Clone)]
pub struct EggVariable {
    pub name: String,
    pub description: String,
    pub env_var: String,
    pub default_value: String,
    pub user_viewable: bool,
    pub user_editable: bool,
    /// Rules for its values, with bars between them.
    pub rules: String,
}

/// A setup script.
#[derive(Debug, Clone)]
pub struct InstallScript {
    pub script: String,
}

/// An egg as it is imported.
#[derive(Debug)]
pub struct EggImport {
    pub name: String,
    pub description: String,
    pub author: String,
    pub category: String,
    pub docker_image: String,
    pub startup: String,
    pub config: Option<Json>,
    pub install: Option<InstallScript>,
    pub variables: Vec<EggVariable>,
    pub stop: String,
}

/// The image of an egg that names none.
pub fn default_image() -> (r: String)
    ensures
        r@ == "alpine:latest"@,
{
    text::copy_of("alpine:latest")
}

/// The stop command of an egg that names none.
pub fn default_stop() -> (r: String)
    ensures
        r@ == "stop"@,
{
    text::copy_of("stop")
}

/// The value of a variable: the owner's, or else the egg's.
pub open spec fn value_of(var: EggVariable, overrides: Seq<(Seq<char>, Seq<char>)>) -> Seq<char> {
    match blueprint::last_value(overrides, var.env_var@) {
        Some(v) => v,
        None => var.default_value@,
    }
}

/// The values of an egg's variables.
pub open spec fn values_of(
    vars: Seq<EggVariable>,
    overrides: Seq<(Seq<char>, Seq<char>)>,
) -> Seq<Seq<char>> {
    Seq::new(vars.len(), |i: int| value_of(vars[i], overrides))
}

/// The values of an egg's variables, one for each: the owner's overrides apply.
pub fn resolve_variables(vars: &Vec<EggVariable>, overrides: &Vec<(String, String)>) -> (r: Vec<
    String,
>)
    ensures
        text::views(r@) == values_of(vars@, json::entries_of(overrides@)),
{
    let ghost goal = values_of(vars@, json::entries_of(overrides@));
    let mut out: Vec<String> = Vec::new();
    let mut i: usize = 0;
    assert(text::views(out@) =~= goal.take(0));
    while i < vars.len()
        invariant
            i <= vars@.len(),
            goal == values_of(vars@, json::entries_of(overrides@)),
            text::views(out@) == goal.take(i as int),
        decreases vars.len() - i,
    {
        let v = match blueprint::look_up(overrides, vars[i].env_var.as_str()) {
            Some(s) => text::copy_of(s.as_str()),
            None => text::copy_of(vars[i].default_value.as_str()),
        };
        let ghost before = text::views(out@);
        out.push(v);
        assert(text::views(out@) =~= before.push(goal[i as int]));
        i += 1;
        assert(text::views(out@) =~= goal.take(i as int));
    }
    assert(goal.take(i as int) =~= goal);
    out
}

/// Whether a character can stand in the name of a variable.
pub open spec fn in_name(c: char) -> bool {
    text::is_alnum(c) || c == '_'
}

/// Place of the first character from a place on that is no white space.
pub open spec fn past_space(s: Seq<char>, i: int) -> int
    decreases s.len() - i,
{
    if 0 <= i < s.len() && text::is_space(s[i]) {
        past_space(s, i + 1)
    } else {
        i
    }
}

/// Place of the first character from a place on that is not of a name.
pub open spec fn past_name(s: Seq<char>, i: int) -> int
    decreases s.len() - i,
{
    if 0 <= i < s.len() && in_name(s[i]) {
        past_name(s, i + 1)
    } else {
        i
    }
}

/// The slot that a text starts with, if it does: the name of its variable and its
/// length. A name stands between double braces, with white space around it or
/// not.
pub open spec fn slot(s: Seq<char>) -> Option<(Seq<char>, int)> {
    if s.len() < 2 || s[0] != '{' || s[1] != '{' {
        None
    } else {
        let from = past_space(s, 2);
        let to = past_name(s, from);
        let end = past_space(s, to);
        if to > from && end + 1 < s.len() && s[end] == '}' && s[end + 1] == '}' {
            Some((s.subrange(from, to), end + 2))
        } else {
            None
        }
    }
}

/// The value under a name; nothing where there is none.
pub open spec fn value_in(env: Seq<(Seq<char>, Seq<char>)>, key: Seq<char>) -> Seq<char> {
    match blueprint::last_value(env, key) {
        Some(v) => v,
        None => Seq::empty(),
    }
}

/// A template with its slots filled. A slot of an unknown name is filled with
/// nothing; what is no slot stays as it is.
pub open spec fn filled(s: Seq<char>, env: Seq<(Seq<char>, Seq<char>)>) -> Seq<char>
    decreases s.len(),
{
    if s.len() == 0 {
        Seq::empty()
    } else {
        match slot(s) {
            Some(found) => if 0 < found.1 <= s.len() {
                value_in(env, found.0) + filled(s.skip(found.1), env)
            } else {
                Seq::empty()
            },
            None => seq![s[0]] + filled(s.skip(1), env),
        }
    }
}

proof fn lemma_past(s: Seq<char>, i: int)
    requires
        0 <= i <= s.len(),
    ensures
        i <= past_space(s, i) <= s.len(),
        i <= past_name(s, i) <= s.len(),
    decreases s.len() - i,
{
    if i < s.len() {
        lemma_past(s, i + 1);
    }
}

/// A slot that is found lies within its text.
proof fn lemma_slot(s: Seq<char>)
    ensures
        slot(s) is Some ==> 0 < (slot(s)->0).1 <= s.len(),
{
    if s.len() >= 2 {
        lemma_past(s, 2);
        lemma_past(s, past_space(s, 2));
        lemma_past(s, past_name(s, past_space(s, 2)));
    }
}

proof fn lemma_past_skip(s: Seq<char>, base: int, i: int)
    requires
        0 <= base,
        0 <= i,
        base + i <= s.len(),
    ensures
        past_space(s.skip(base), i) == past_space(s, base + i) - base,
        past_name(s.skip(base), i) == past_name(s, base + i) - base,
    decreases s.len() - i,
{
    if base + i < s.len() {
        assert(s.skip(base)[i] == s[base + i]);
        lemma_past_skip(s, base, i + 1);
    }
}

fn skip_space(s: &[char], from: usize) -> (r: usize)
    requires
        from <= s@.len(),
    ensures
        r == past_space(s@, from as int),
        from <= r <= s@.len(),
{
    let mut i: usize = from;
    while i < s.len() && text::is_white_space(s[i])
        invariant
            from <= i <= s@.len(),
            past_space(s@, i as int) == past_space(s@, from as int),
        decreases s.len() - i,
    {
        i += 1;
    }
    i
}

fn skip_name(s: &[char], from: usize) -> (r: usize)
    requires
        from <= s@.len(),
    ensures
        r == past_name(s@, from as int),
        from <= r <= s@.len(),
{
    let mut i: usize = from;
    while i < s.len() && (text::is_ascii_alnum(s[i]) || s[i] == '_')
        invariant
            from <= i <= s@.len(),
            past_name(s@, i as int) == past_name(s@, from as int),
        decreases s.len() - i,
    {
        i += 1;
    }
    i
}

/// The slot at a place of a text: where its name begins and ends, and where it
/// ends itself.
fn slot_at(s: &[char], at: usize) -> (r: Option<(usize, usize, usize)>)
    requires
        at <= s@.len(),
    ensures
        match r {
            Some(f) => {
                &&& at < f.2 <= s@.len() && at <= f.0 <= f.1 <= s@.len()
                &&& slot(s@.skip(at as int)) == Some(
                    (s@.subrange(f.0 as int, f.1 as int), f.2 - at),
                )
            },
            None => slot(s@.skip(at as int)) is None,
        },
{
    let ghost t = s@.skip(at as int);
    if s.len() - at < 2 || s[at] != '{' || s[at + 1] != '{' {
        return None;
    }
    let from: usize = skip_space(s, at + 2);
    let to: usize = skip_name(s, from);
    let end: usize = skip_space(s, to);
    proof {
        lemma_past_skip(s@, at as int, 2);
        lemma_past_skip(s@, at as int, from - at);
        lemma_past_skip(s@, at as int, to - at);
    }
    if to > from && s.len() - end >= 2 && s[end] == '}' && s[end + 1] == '}' {
        assert(t.subrange(from - at, to - at) =~= s@.subrange(from as int, to as int));
        Some((from, to, end + 2))
    } else {
        None
    }
}

/// Fills the slots of a template.
pub fn fill(template: &str, env: &Vec<(String, String)>) -> (r: String)
    ensures
        r@ == filled(template@, json::entries_of(env@)),
{
    let cs = text::chars_of(template);
    let ghost all = json::entries_of(env@);
    let mut out: Vec<char> = Vec::new();
    let mut i: usize = 0;
    assert(cs@.skip(0) =~= cs@);
    assert(out@ + filled(cs@, all) =~= filled(cs@, all));
    while i < cs.len()
        invariant
            i <= cs@.len(),
            all == json::entries_of(env@),
            out@ + filled(cs@.skip(i as int), all) == filled(cs@, all),
        decreases cs.len() - i,
    {
        let ghost before = out@;
        let ghost rest = cs@.skip(i as int);
        proof {
            lemma_slot(rest);
        }
        match slot_at(cs.as_slice(), i) {
            Some(f) => {
                let name = text::string_of(
                    vstd::slice::slice_subrange(cs.as_slice(), f.0, f.1),
                );
                assert(rest.skip(f.2 - i) =~= cs@.skip(f.2 as int));
                match blueprint::look_up(env, name.as_str()) {
                    Some(v) => {
                        let vc = text::chars_of(v.as_str());
                        text::push_all(&mut out, vc.as_slice());
                        assert(out@ =~= before + value_in(all, name@));
                    },
                    None => {
                        assert(out@ =~= before + value_in(all, name@));
                    },
                }
                assert(before + (value_in(all, name@) + filled(rest.skip(f.2 - i), all)) =~= out@
                    + filled(cs@.skip(f.2 as int), all));
                i = f.2;
            },
            None => {
                out.push(cs[i]);
                assert(rest.skip(1) =~= cs@.skip(i + 1));
                assert(before + (seq![rest[0]] + filled(rest.skip(1), all)) =~= out@ + filled(
                    cs@.skip(i + 1),
                    all,
                ));
                i += 1;
            },
        }
    }
    assert(cs@.skip(i as int) =~= Seq::<char>::empty());
    assert(out@ + filled(cs@.skip(i as int), all) =~= out@);
    text::string_of(out.as_slice())
}

/// The values of an egg's variables under their names.
pub open spec fn named_values(vars: Seq<EggVariable>, values: Seq<Seq<char>>) -> Seq<
    (Seq<char>, Seq<char>),
> {
    Seq::new(vars.len(), |i: int| (vars[i].env_var@, values[i]))
}

/// What templates are told of a server.
pub open spec fn server_values(server: Server) -> Seq<(Seq<char>, Seq<char>)> {
    seq![
        ("SERVER_NAME"@, server.name@),
        ("SERVER_UUID"@, server.uuid@),
        ("SERVER_MEMORY"@, text::decimal(server.memory_mb as int)),
        ("SERVER_DISK"@, text::decimal(server.disk_mb as int)),
        ("SERVER_CPU"@, text::decimal(server.cpu_percent as int)),
        ("SERVER_PORT"@, blueprint::port_text(server.port)),
    ]
}

fn name_values(vars: &Vec<EggVariable>, values: &Vec<String>) -> (r: Vec<(String, String)>)
    requires
        vars@.len() == values@.len(),
    ensures
        json::entries_of(r@) == named_values(vars@, text::views(values@)),
{
    let ghost goal = named_values(vars@, text::views(values@));
    let mut out: Vec<(String, String)> = Vec::new();
    let mut i: usize = 0;
    assert(json::entries_of(out@) =~= goal.take(0));
    while i < vars.len()
        invariant
            i <= vars@.len() == values@.len(),
            goal == named_values(vars@, text::views(values@)),
            json::entries_of(out@) == goal.take(i as int),
        decreases vars.len() - i,
    {
        blueprint::add_pair(&mut out, vars[i].env_var.as_str(), values[i].as_str());
        i += 1;
        assert(json::entries_of(out@) =~= goal.take(i as int));
    }
    assert(json::entries_of(out@) =~= goal);
    out
}

fn number_text(n: i64) -> (r: String)
    ensures
        r@ == text::decimal(n as int),
{
    text::string_of(text::decimal_i64(n).as_slice())
}

fn port_of(server: &Server) -> (r: String)
    ensures
        r@ == blueprint::port_text(server.port),
{
    match server.port {
        Some(p) => number_text(p),
        None => {
            let s = String::new();
            assert(s@ =~= Seq::<char>::empty());
            s
        },
    }
}

/// The command that starts a server: its own, or else the egg's, with its slots
/// filled. What is told of the server takes precedence over variables.
pub fn resolve_startup(
    egg_startup: &str,
    vars: &Vec<EggVariable>,
    values: &Vec<String>,
    server: &Server,
) -> (r: String)
    requires
        vars@.len() == values@.len(),
    ensures
        r@ == filled(
            if server.startup@.len() == 0 {
                egg_startup@
            } else {
                server.startup@
            },
            named_values(vars@, text::views(values@)) + server_values(*server),
        ),
{
    let mut env = name_values(vars, values);
    let ghost named = json::entries_of(env@);
    blueprint::add_pair(&mut env, "SERVER_NAME", server.name.as_str());
    blueprint::add_pair(&mut env, "SERVER_UUID", server.uuid.as_str());
    blueprint::add_pair(&mut env, "SERVER_MEMORY", number_text(server.memory_mb).as_str());
    blueprint::add_pair(&mut env, "SERVER_DISK", number_text(server.disk_mb).as_str());
    blueprint::add_pair(&mut env, "SERVER_CPU", number_text(server.cpu_percent).as_str());
    blueprint::add_pair(&mut env, "SERVER_PORT", port_of(server).as_str());
    assert(json::entries_of(env@) =~= named + server_values(*server));
    if server.startup.as_str().is_empty() {
        fill(egg_startup, &env)
    } else {
        fill(server.startup.as_str(), &env)
    }
}

/// The default configuration of a server, where the egg has one: with its slots
/// filled, or null where that is no document.
pub fn build_default_config(
    config: &Option<String>,
    vars: &Vec<EggVariable>,
    values: &Vec<String>,
    server: &Server,
) -> (r: Option<Json>)
    requires
        vars@.len() == values@.len(),
    ensures
        match *config {
            None => r is None,
            Some(c) => {
                let text = filled(
                    c@,
                    named_values(vars@, text::views(values@)) + seq![
                        ("SERVER_PORT"@, blueprint::port_text(server.port)),
                        ("SERVER_NAME"@, server.name@),
                    ],
                );
                r is Some && r->0@ == json::read_or_null(json::parsed(text))
            },
        },
{
    match config {
        None => None,
        Some(c) => {
            let mut env = name_values(vars, values);
            let ghost named = json::entries_of(env@);
            blueprint::add_pair(&mut env, "SERVER_PORT", port_of(server).as_str());
            blueprint::add_pair(&mut env, "SERVER_NAME", server.name.as_str());
            assert(json::entries_of(env@) =~= named + seq![
                ("SERVER_PORT"@, blueprint::port_text(server.port)),
                ("SERVER_NAME"@, server.name@),
            ]);
            let filled = fill(c.as_str(), &env);
            Some(Json::or_null(Json::parse(filled.as_str())))
        },
    }
}

/// The variables that a process gets: those that users may see, and those with a
/// value.
pub open spec fn env_variables(vars: Seq<EggVariable>, values: Seq<Seq<char>>) -> Seq<
    (Seq<char>, Seq<char>),
>
    decreases vars.len(),
{
    if vars.len() == 0 {
        Seq::empty()
    } else {
        let before = env_variables(vars.drop_last(), values);
        let v = vars.last();
        let value = values[vars.len() - 1];
        if v.user_viewable || value.len() > 0 {
            before.push((v.env_var@, value))
        } else {
            before
        }
    }
}

/// The environment of a server's process.
pub fn env_for_server(
    vars: &Vec<EggVariable>,
    values: &Vec<String>,
    server: &Server,
    dir: &str,
) -> (r: Vec<(String, String)>)
    requires
        vars@.len() == values@.len(),
    ensures
        json::entries_of(r@) == env_variables(vars@, text::views(values@))
            + blueprint::env_workspace(*server, dir@),
{
    let ghost vs = text::views(values@);
    let mut env: Vec<(String, String)> = Vec::new();
    let mut i: usize = 0;
    assert(json::entries_of(env@) =~= env_variables(vars@.take(0), vs));
    while i < vars.len()
        invariant
            i <= vars@.len() == values@.len(),
            vs == text::views(values@),
            json::entries_of(env@) == env_variables(vars@.take(i as int), vs),
        decreases vars.len() - i,
    {
        assert(vars@.take(i + 1).drop_last() =~= vars@.take(i as int));
        if vars[i].user_viewable || !values[i].as_str().is_empty() {
            blueprint::add_pair(&mut env, vars[i].env_var.as_str(), values[i].as_str());
        }
        i += 1;
    }
    assert(vars@.take(vars@.len() as int) =~= vars@);
    let ghost given = json::entries_of(env@);
    blueprint::add_pair(&mut env, "HOME", dir);
    blueprint::add_pair(&mut env, "PWD", dir);
    blueprint::add_pair(&mut env, "SERVER_UUID", server.uuid.as_str());
    blueprint::add_pair(&mut env, "SERVER_NAME", server.name.as_str());
    blueprint::add_pair(&mut env, "SERVER_MEMORY", number_text(server.memory_mb).as_str());
    blueprint::add_pair(&mut env, "SERVER_DISK", number_text(server.disk_mb).as_str());
    blueprint::add_pair(&mut env, "SERVER_CPU", number_text(server.cpu_percent).as_str());
    blueprint::add_pair(&mut env, "SERVER_PORT", port_of(server).as_str());
    assert(json::entries_of(env@) =~= given + blueprint::env_workspace(*server, dir@));
    env
}

/// A rule for the values of a variable.
#[derive(Debug, Clone)]
pub enum Rule {
    Required,
    Numeric,
    /// The least number or length, as it is written.
    Min { least: String },
    /// The greatest number or length, as it is written.
    Max { greatest: String },
    Pattern { pattern: String },
    /// One that says nothing.
    Other,
}

/// Whether a rule is what a piece of text says.
pub open spec fn is_rule(piece: Seq<char>, rule: Rule) -> bool {
    let s = text::trimmed(piece);
    if s == "required"@ {
        rule is Required
    } else if s == "numeric"@ {
        rule is Numeric
    } else if text::begins_with(s, "min:"@) {
        rule is Min && rule->least@ == text::trimmed(s.skip(4))
    } else if text::begins_with(s, "max:"@) {
        rule is Max && rule->greatest@ == text::trimmed(s.skip(4))
    } else if text::begins_with(s, "regex:"@) {
        rule is Pattern && rule->pattern@ == s.skip(6)
    } else {
        rule is Other
    }
}

fn rule_of(piece: &[char]) -> (r: Rule)
    ensures
        is_rule(piece@, r),
{
    let s = text::trim(piece);
    let word = text::string_of(s);
    proof {
        reveal_strlit("min:");
        reveal_strlit("max:");
        reveal_strlit("regex:");
    }
    if text::same(word.as_str(), "required") {
        Rule::Required
    } else if text::same(word.as_str(), "numeric") {
        Rule::Numeric
    } else if text::starts_with(s, text::chars_of("min:").as_slice()) {
        let rest = vstd::slice::slice_subrange(s, 4, s.len());
        assert(rest@ =~= s@.skip(4));
        Rule::Min { least: text::string_of(text::trim(rest)) }
    } else if text::starts_with(s, text::chars_of("max:").as_slice()) {
        let rest = vstd::slice::slice_subrange(s, 4, s.len());
        assert(rest@ =~= s@.skip(4));
        Rule::Max { greatest: text::string_of(text::trim(rest)) }
    } else if text::starts_with(s, text::chars_of("regex:").as_slice()) {
        let rest = vstd::slice::slice_subrange(s, 6, s.len());
        assert(rest@ =~= s@.skip(6));
        Rule::Pattern { pattern: text::string_of(rest) }
    } else {
        Rule::Other
    }
}

/// The rules of a variable, in order.
pub fn rules_of(rules: &str) -> (r: Vec<Rule>)
    ensures
        ({
            let pieces = text::split_on(rules@, '|');
            &&& r@.len() == pieces.len()
            &&& forall|i: int| 0 <= i < pieces.len() ==> is_rule(#[trigger] pieces[i], r@[i])
        }),
{
    let cs = text::chars_of(rules);
    let pieces = text::split(cs.as_slice(), '|');
    let ghost all = text::split_on(rules@, '|');
    let mut out: Vec<Rule> = Vec::new();
    let mut i: usize = 0;
    while i < pieces.len()
        invariant
            i <= pieces@.len(),
            text::runs(pieces@) == all,
            out@.len() == i,
            forall|j: int| 0 <= j < i ==> is_rule(#[trigger] all[j], out@[j]),
        decreases pieces.len() - i,
    {
        assert(all[i as int] == pieces@[i as int]@);
        out.push(rule_of(pieces[i].as_slice()));
        i += 1;
    }
    out
}

/// What is wrong with a value.
#[derive(Debug, Clone, Copy, PartialEq, Eq, Structural)]
pub enum EggFault {
    Required,
    InvalidMin,
    InvalidMax,
    InvalidPattern,
    NoMatch,
    NotNumeric,
    BelowMin,
    AboveMax,
    TooShort,
    TooLong,
}

/// Why a value was refused: what is wrong, of which variable, and the bound that
/// belongs to it.
#[derive(Debug, Clone)]
pub struct EggError {
    pub fault: EggFault,
    pub name: String,
    pub bound: String,
}

impl EggError {
    /// The error in words.
    pub open spec fn words(self) -> Seq<char> {
        match self.fault {
            EggFault::Required => self.name@ + " is required"@,
            EggFault::InvalidMin => "invalid min rule"@,
            EggFault::InvalidMax => "invalid max rule"@,
            EggFault::InvalidPattern => "invalid regex rule"@,
            EggFault::NoMatch => self.name@ + " does not match required pattern"@,
            EggFault::NotNumeric => self.name@ + " must be numeric"@,
            EggFault::BelowMin => self.name@ + " must be at least "@ + self.bound@,
            EggFault::AboveMax => self.name@ + " must be at most "@ + self.bound@,
            EggFault::TooShort => self.name@ + " must be at least "@ + self.bound@
                + " characters"@,
            EggFault::TooLong => self.name@ + " must be at most "@ + self.bound@ + " characters"@,
        }
    }

    /// The error in words.
    pub fn message(&self) -> (r: String)
        ensures
            r@ == self.words(),
    {
        let mut out = text::copy_of(self.name.as_str());
        match self.fault {
            EggFault::Required => out.append(" is required"),
            EggFault::InvalidMin => return text::copy_of("invalid min rule"),
            EggFault::InvalidMax => return text::copy_of("invalid max rule"),
            EggFault::InvalidPattern => return text::copy_of("invalid regex rule"),
            EggFault::NoMatch => out.append(" does not match required pattern"),
            EggFault::NotNumeric => out.append(" must be numeric"),
            EggFault::BelowMin => {
                out.append(" must be at least ");
                out.append(self.bound.as_str());
            },
            EggFault::AboveMax => {
                out.append(" must be at most ");
                out.append(self.bound.as_str());
            },
            EggFault::TooShort => {
                out.append(" must be at least ");
                out.append(self.bound.as_str());
                out.append(" characters");
            },
            EggFault::TooLong => {
                out.append(" must be at most ");
                out.append(self.bound.as_str());
                out.append(" characters");
            },
        }
        out
    }
}

/// What a pattern says of a value: nothing that it refuses, that the pattern is
/// none, or that the value differs.
pub open spec fn pattern_fault(refused: bool, matches: bool) -> Option<EggFault> {
    if refused {
        Some(EggFault::InvalidPattern)
    } else if !matches {
        Some(EggFault::NoMatch)
    } else {
        None
    }
}

/// What one rule finds wrong with a value by itself, given whether its bound is a
/// number, and what its pattern says.
pub open spec fn rule_fault(
    rule: Rule,
    value: Seq<char>,
    bounded: bool,
    pattern: Option<EggFault>,
) -> Option<EggFault> {
    match rule {
        Rule::Required => if text::trimmed(value).len() == 0 {
            Some(EggFault::Required)
        } else {
            None
        },
        Rule::Min { .. } => if bounded {
            None
        } else {
            Some(EggFault::InvalidMin)
        },
        Rule::Max { .. } => if bounded {
            None
        } else {
            Some(EggFault::InvalidMax)
        },
        Rule::Pattern { .. } => pattern,
        _ => None,
    }
}

/// What the first rule that finds something wrong finds.
pub open spec fn first_fault(
    rules: Seq<Rule>,
    value: Seq<char>,
    bounded: Seq<bool>,
    patterns: Seq<Option<EggFault>>,
    n: int,
) -> Option<EggFault>
    decreases n,
{
    if n <= 0 {
        None
    } else {
        match first_fault(rules, value, bounded, patterns, n - 1) {
            Some(f) => Some(f),
            None => rule_fault(rules[n - 1], value, bounded[n - 1], patterns[n - 1]),
        }
    }
}

/// Whether a variable takes numbers.
pub open spec fn is_numeric(rules: Seq<Rule>) -> bool {
    exists|i: int| 0 <= i < rules.len() && #[trigger] rules[i] is Numeric
}

/// Whether a variable declares a least number or length.
pub open spec fn has_least(rules: Seq<Rule>) -> bool {
    exists|i: int| 0 <= i < rules.len() && #[trigger] rules[i] is Min
}

/// Whether a variable declares a greatest number or length.
pub open spec fn has_greatest(rules: Seq<Rule>) -> bool {
    exists|i: int| 0 <= i < rules.len() && #[trigger] rules[i] is Max
}

/// What a verdict on a number makes of a value.
pub open spec fn number_fault(v: NumberVerdict) -> Option<(EggFault, Seq<char>)> {
    match v {
        NumberVerdict::NotANumber => Some((EggFault::NotNumeric, Seq::empty())),
        NumberVerdict::TooLow { bound } => Some((EggFault::BelowMin, bound@)),
        NumberVerdict::TooHigh { bound } => Some((EggFault::AboveMax, bound@)),
        _ => None,
    }
}

/// What a verdict on its length makes of a value: each bound counts where it is
/// declared.
pub open spec fn length_fault(rules: Seq<Rule>, v: NumberVerdict) -> Option<
    (EggFault, Seq<char>),
> {
    match v {
        NumberVerdict::TooLow { bound } => if has_least(rules) {
            Some((EggFault::TooShort, bound@))
        } else {
            None
        },
        NumberVerdict::TooHigh { bound } => if has_greatest(rules) {
            Some((EggFault::TooLong, bound@))
        } else {
            None
        },
        _ => None,
    }
}

/// What is wrong with a value, and the bound that belongs to it.
pub open spec fn value_fault(
    rules: Seq<Rule>,
    value: Seq<char>,
    bounded: Seq<bool>,
    patterns: Seq<Option<EggFault>>,
    number: NumberVerdict,
    length: NumberVerdict,
) -> Option<(EggFault, Seq<char>)> {
    match first_fault(rules, value, bounded, patterns, rules.len() as int) {
        Some(f) => Some((f, Seq::empty())),
        None => if is_numeric(rules) {
            number_fault(number)
        } else {
            length_fault(rules, length)
        },
    }
}

/// Whether a result is the answer to what was found wrong.
pub open spec fn is_verdict(
    fault: Option<(EggFault, Seq<char>)>,
    name: Seq<char>,
    r: Result<(), EggError>,
) -> bool {
    match fault {
        None => r is Ok,
        Some(f) => r is Err && r->Err_0.fault == f.0 && r->Err_0.name@ == name && r->Err_0.bound@
            == f.1,
    }
}

fn refuse(fault: EggFault, name: &str, bound: &str) -> (r: EggError)
    ensures
        r.fault == fault && r.name@ == name@ && r.bound@ == bound@,
{
    EggError { fault, name: text::copy_of(name), bound: text::copy_of(bound) }
}

fn refuse_plain(fault: EggFault, name: &str) -> (r: EggError)
    ensures
        r.fault == fault && r.name@ == name@ && r.bound@ == Seq::<char>::empty(),
{
    let bound = String::new();
    assert(bound@ =~= Seq::<char>::empty());
    EggError { fault, name: text::copy_of(name), bound }
}

/// Checks a value against rules, given what was found out elsewhere: which bounds
/// are numbers, what the patterns say, and what the bounds say of the value as a
/// number and of its length.
pub fn check_value(
    name: &str,
    rules: &Vec<Rule>,
    value: &str,
    bounded: &Vec<bool>,
    patterns: &Vec<Option<EggFault>>,
    number: &NumberVerdict,
    length: &NumberVerdict,
) -> (r: Result<(), EggError>)
    requires
        bounded@.len() == rules@.len(),
        patterns@.len() == rules@.len(),
    ensures
        is_verdict(
            value_fault(rules@, value@, bounded@, patterns@, *number, *length),
            name@,
            r,
        ),
{
    let cs = text::chars_of(value);
    let blank = text::trim(cs.as_slice()).len() == 0;
    let mut numeric = false;
    let mut least = false;
    let mut greatest = false;
    let mut i: usize = 0;
    while i < rules.len()
        invariant
            i <= rules@.len(),
            bounded@.len() == rules@.len(),
            patterns@.len() == rules@.len(),
            blank == (text::trimmed(value@).len() == 0),
            first_fault(rules@, value@, bounded@, patterns@, i as int) is None,
            numeric == exists|j: int| 0 <= j < i && #[trigger] rules@[j] is Numeric,
            least == exists|j: int| 0 <= j < i && #[trigger] rules@[j] is Min,
            greatest == exists|j: int| 0 <= j < i && #[trigger] rules@[j] is Max,
        decreases rules.len() - i,
    {
        let fault: Option<EggFault> = match &rules[i] {
            Rule::Required => if blank {
                Some(EggFault::Required)
            } else {
                None
            },
            Rule::Numeric => {
                numeric = true;
                assert(rules@[i as int] is Numeric);
                None
            },
            Rule::Min { .. } => {
                least = true;
                assert(rules@[i as int] is Min);
                if bounded[i] {
                    None
                } else {
                    Some(EggFault::InvalidMin)
                }
            },
            Rule::Max { .. } => {
                greatest = true;
                assert(rules@[i as int] is Max);
                if bounded[i] {
                    None
                } else {
                    Some(EggFault::InvalidMax)
                }
            },
            Rule::Pattern { .. } => patterns[i],
            Rule::Other => None,
        };
        if let Some(f) = fault {
            proof {
                lemma_first_fault(
                    rules@,
                    value@,
                    bounded@,
                    patterns@,
                    i + 1,
                    rules@.len() as int,
                );
            }
            return Err(refuse_plain(f, name));
        }
        i += 1;
    }
    if numeric {
        match number {
            NumberVerdict::NotANumber => Err(refuse_plain(EggFault::NotNumeric, name)),
            NumberVerdict::TooLow { bound } => Err(
                refuse(EggFault::BelowMin, name, bound.as_str()),
            ),
            NumberVerdict::TooHigh { bound } => Err(
                refuse(EggFault::AboveMax, name, bound.as_str()),
            ),
            _ => Ok(()),
        }
    } else {
        match length {
            NumberVerdict::TooLow { bound } => if least {
                Err(refuse(EggFault::TooShort, name, bound.as_str()))
            } else {
                Ok(())
            },
            NumberVerdict::TooHigh { bound } => if greatest {
                Err(refuse(EggFault::TooLong, name, bound.as_str()))
            } else {
                Ok(())
            },
            _ => Ok(()),
        }
    }
}

proof fn lemma_first_fault(
    rules: Seq<Rule>,
    value: Seq<char>,
    bounded: Seq<bool>,
    patterns: Seq<Option<EggFault>>,
    n: int,
    m: int,
)
    requires
        n <= m,
        first_fault(rules, value, bounded, patterns, n) is Some,
    ensures
        first_fault(rules, value, bounded, patterns, m) == first_fault(
            rules,
            value,
            bounded,
            patterns,
            n,
        ),
    decreases m - n,
{
    if n < m {
        lemma_first_fault(rules, value, bounded, patterns, n, m - 1);
    }
}

/// What the patterns among some rules say of a value.
pub open spec fn pattern_faults(rules: Seq<Rule>, value: Seq<char>) -> Seq<Option<EggFault>> {
    Seq::new(
        rules.len(),
        |i: int|
            match rules[i] {
                Rule::Pattern { pattern } => pattern_fault(
                    blueprint::regex_error(pattern@) is Some,
                    blueprint::regex_matches(pattern@, value),
                ),
                _ => None,
            },
    )
}

fn judge_patterns(rules: &Vec<Rule>, value: &str) -> (r: Vec<Option<EggFault>>)
    ensures
        r@ == pattern_faults(rules@, value@),
{
    let mut out: Vec<Option<EggFault>> = Vec::new();
    let mut i: usize = 0;
    while i < rules.len()
        invariant
            i <= rules@.len(),
            out@ == pattern_faults(rules@, value@).take(i as int),
        decreases rules.len() - i,
    {
        let f = match &rules[i] {
            Rule::Pattern { pattern } => if blueprint::regex_refusal(pattern.as_str()).is_some() {
                Some(EggFault::InvalidPattern)
            } else if !blueprint::regex_is_match(pattern.as_str(), value) {
                Some(EggFault::NoMatch)
            } else {
                None
            },
            _ => None,
        };
        out.push(f);
        i += 1;
        assert(out@ =~= pattern_faults(rules@, value@).take(i as int));
    }
    assert(out@ =~= pattern_faults(rules@, value@));
    out
}

/// Checks a value against the rules of its variable. Which bounds are numbers, and
/// what they say of the value as a number and of its length, is found out
/// elsewhere and given.
pub fn validate_value(
    var: &EggVariable,
    rules: &Vec<Rule>,
    value: &str,
    bounded: &Vec<bool>,
    number: &NumberVerdict,
    length: &NumberVerdict,
) -> (r: Result<(), EggError>)
    requires
        bounded@.len() == rules@.len(),
    ensures
        is_verdict(
            value_fault(
                rules@,
                value@,
                bounded@,
                pattern_faults(rules@, value@),
                *number,
                *length,
            ),
            var.env_var@,
            r,
        ),
{
    let patterns = judge_patterns(rules, value);
    check_value(var.env_var.as_str(), rules, value, bounded, &patterns, number, length)
}

/// Plans the setup of a server; none where the egg has no script.
pub fn run_install(
    script: &Option<String>,
    vars: &Vec<EggVariable>,
    values: &Vec<String>,
    server: &Server,
    dir: &str,
) -> (r: Option<InstallPlan>)
    requires
        vars@.len() == values@.len(),
        blueprint::has_script(*script) ==> server.memory_mb <= blueprint::MAX_COUNTED_MB,
    ensures
        r is Some <==> blueprint::has_script(*script),
        r is Some ==> {
            let p = r->0;
            &&& p.script@ == script->0@
            &&& json::entries_of(p.env@) == env_variables(vars@, text::views(values@))
                + blueprint::env_workspace(*server, dir@)
            &&& p.limits.memory_bytes == (if server.memory_mb < 256 {
                256
            } else {
                server.memory_mb as int
            }) * 1_048_576
            &&& p.limits.cpu_percent == (if server.cpu_percent < 25 {
                25
            } else {
                server.cpu_percent as int
            })
            &&& p.limits.pids_max == 256
            &&& p.sandbox@ == server.uuid@ + "-install"@
        },
{
    if !blueprint::is_scripted(script) {
        return None;
    }
    let body = match script {
        Some(s) => s,
        None => return None,
    };
    let mut sandbox = text::copy_of(server.uuid.as_str());
    sandbox.append("-install");
    Some(
        InstallPlan {
            script: text::copy_of(body.as_str()),
            env: env_for_server(vars, values, server, dir),
            limits: blueprint::install_limits(server),
            sandbox,
        },
    )
}

/// Place of the first line end from a place on.
pub open spec fn line_end(s: Seq<char>, i: int) -> int
    decreases s.len() - i,
{
    if 0 <= i < s.len() && s[i] != '\n' {
        line_end(s, i + 1)
    } else {
        i
    }
}

/// The first line of a text, without its line end; nothing where there is none.
pub open spec fn first_line(s: Seq<char>) -> Option<Seq<char>> {
    let end = line_end(s, 0);
    if s.len() == 0 {
        None
    } else if end < s.len() && end > 0 && s[end - 1] == '\r' {
        Some(s.take(end - 1))
    } else {
        Some(s.take(end))
    }
}

/// What users are told of a setup that has ended.
#[derive(Debug, Clone)]
pub struct InstallNotice {
    pub level: String,
    pub title: String,
    pub body: String,
    /// Why the setup failed, if it did.
    pub error: Option<String>,
}

fn first_line_of(s: &[char]) -> (r: Option<Vec<char>>)
    ensures
        match r {
            Some(v) => first_line(s@) == Some(v@),
            None => first_line(s@) is None,
        },
{
    if s.len() == 0 {
        return None;
    }
    let mut end: usize = 0;
    while end < s.len() && s[end] != '\n'
        invariant
            end <= s@.len(),
            line_end(s@, end as int) == line_end(s@, 0),
        decreases s.len() - end,
    {
        end += 1;
    }
    let stop: usize = if end < s.len() && end > 0 && s[end - 1] == '\r' {
        end - 1
    } else {
        end
    };
    let mut out: Vec<char> = Vec::new();
    text::push_all(&mut out, vstd::slice::slice_subrange(s, 0, stop));
    assert(out@ =~= s@.take(stop as int));
    Some(out)
}

/// What users are told of a setup that has ended, given what it wrote as errors.
pub fn install_notice(server_name: &str, success: bool, stderr: &str) -> (r: InstallNotice)
    ensures
        if success {
            &&& r.level@ == "success"@
            &&& r.title@ == "'"@ + server_name@ + "' installed"@
            &&& r.body@ == "Install script completed"@
            &&& r.error is None
        } else {
            &&& r.level@ == "error"@
            &&& r.title@ == "Install failed for '"@ + server_name@ + "'"@
            &&& r.body@ == stderr@
            &&& r.error is Some
            &&& r.error->0@ == "install script failed: "@ + (match first_line(stderr@) {
                Some(l) => l,
                None => "unknown error"@,
            })
        },
{
    if success {
        let mut title = text::copy_of("'");
        title.append(server_name);
        title.append("' installed");
        return InstallNotice {
            level: text::copy_of("success"),
            title,
            body: text::copy_of("Install script completed"),
            error: None,
        };
    }
    let mut title = text::copy_of("Install failed for '");
    title.append(server_name);
    title.append("'");
    let cs = text::chars_of(stderr);
    let line = match first_line_of(cs.as_slice()) {
        Some(l) => text::string_of(l.as_slice()),
        None => text::copy_of("unknown error"),
    };
    let mut error = text::copy_of("install script failed: ");
    error.append(line.as_str());
    InstallNotice {
        level: text::copy_of("error"),
        title,
        body: text::copy_of(stderr),
        error: Some(error),
    }
}

/// A template without double braces is not changed.
pub proof fn law_plain_template_is_kept(s: Seq<char>, env: Seq<(Seq<char>, Seq<char>)>)
    requires
        forall|i: int| 0 <= i < s.len() - 1 ==> !(#[trigger] s[i] == '{' && s[i + 1] == '{'),
    ensures
        filled(s, env) == s,
    decreases s.len(),
{
    if s.len() > 0 {
        let rest = s.skip(1);
        assert forall|i: int| 0 <= i < rest.len() - 1 implies !(#[trigger] rest[i] == '{' && rest[i
            + 1] == '{') by {
            assert(rest[i] == s[i + 1] && rest[i + 1] == s[i + 2]);
        }
        law_plain_template_is_kept(rest, env);
        assert(slot(s) is None) by {
            if s.len() >= 2 {
                assert(!(s[0] == '{' && s[1] == '{'));
            }
        }
        assert(seq![s[0]] + rest =~= s);
    }
}

/// What is told of a server cannot be overridden by a variable of the same name.
pub proof fn law_server_values_take_precedence(
    named: Seq<(Seq<char>, Seq<char>)>,
    server: Server,
    key: Seq<char>,
)
    requires
        blueprint::last_value(server_values(server), key) is Some,
    ensures
        value_in(named + server_values(server), key) == blueprint::last_value(
            server_values(server),
            key,
        )->0,
{
    lemma_last_value_of_both(named, server_values(server), key);
}

proof fn lemma_last_value_of_both(
    a: Seq<(Seq<char>, Seq<char>)>,
    b: Seq<(Seq<char>, Seq<char>)>,
    key: Seq<char>,
)
    ensures
        blueprint::last_value(a + b, key) == match blueprint::last_value(b, key) {
            Some(v) => Some(v),
            None => blueprint::last_value(a, key),
        },
    decreases b.len(),
{
    if b.len() == 0 {
        assert(a + b =~= a);
    } else {
        lemma_last_value_of_both(a, b.drop_last(), key);
        assert((a + b).drop_last() =~= a + b.drop_last());
        assert((a + b).last() == b.last());
    }
}

} // verus!
