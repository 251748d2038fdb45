//! What becomes of the values that a user gives: which are accepted, and what a
//! server is told of them.
use crate::laws::rendering::blank;
use crate::laws::texts;
use crate::models::{BlueprintInput, Server};
use crate::paths;
use crate::services::blueprint;
use crate::services::blueprint::{
    DeclError, Findings, InputError, InputFault, LaunchError, NumberVerdict, PatternVerdict,
    UrlVerdict, Workspace,
};
use crate::services::egg;
use crate::services::egg::{EggFault, EggVariable, Rule};
use crate::text;
use vstd::prelude::*;
use vstd::string::*;

verus! {

/// Whether a text holds a character at some place.
pub open spec fn holds(s: Seq<char>, c: char) -> bool {
    exists|i: int| 0 <= i < s.len() && #[trigger] s[i] == c
}

/// A value of nothing but white space is refused if and only if one is required,
/// whatever its kind.
pub proof fn law_blank_value(
    var: BlueprintInput,
    value: Seq<char>,
    number: NumberVerdict,
    pattern: PatternVerdict,
    url: UrlVerdict,
)
    requires
        blank(value),
    ensures
        var.required ==> blueprint::value_fault(var, value, number, pattern, url) == Some(
            (InputFault::Required, Seq::<char>::empty()),
        ),
        !var.required ==> blueprint::value_fault(var, value, number, pattern, url) is None,
{
    let _ = texts::law_trimmed_text_is_the_middle(value);
}

/// A text is accepted if and only if it is no longer than it may be and its pattern
/// can be read and matches.
pub proof fn law_text_value(
    var: BlueprintInput,
    value: Seq<char>,
    number: NumberVerdict,
    pattern: PatternVerdict,
    url: UrlVerdict,
)
    requires
        !blank(value),
        var.kind is Text,
    ensures
        ({
            let f = blueprint::value_fault(var, value, number, pattern, url);
            let max = var.kind->Text_max_len;
            let long = max is Some && value.len() > max->0;
            &&& f is None <==> !long && (pattern is Matches || pattern is Absent)
            &&& long ==> f == Some((InputFault::TooLong, text::decimal(max->0 as int)))
            &&& !long && pattern is Differs ==> f == Some(
                (InputFault::NoMatch, Seq::<char>::empty()),
            )
            &&& !long && pattern is Invalid ==> f == Some(
                (InputFault::PatternInvalid, pattern->reason@),
            )
        }),
{
    let _ = texts::law_trimmed_text_is_the_middle(value);
}

/// A number is accepted if and only if it is one, finite and within its bounds.
pub proof fn law_number_value(
    var: BlueprintInput,
    value: Seq<char>,
    number: NumberVerdict,
    pattern: PatternVerdict,
    url: UrlVerdict,
)
    requires
        !blank(value),
        var.kind is Number,
    ensures
        ({
            let f = blueprint::value_fault(var, value, number, pattern, url);
            &&& f is None <==> number is Fine
            &&& number is NotANumber ==> (f->0).0 == InputFault::NotNumber
            &&& number is NotFinite ==> (f->0).0 == InputFault::NotFinite
            &&& number matches NumberVerdict::TooLow { bound } ==> f == Some(
                (InputFault::BelowMin, bound@),
            )
            &&& number matches NumberVerdict::TooHigh { bound } ==> f == Some(
                (InputFault::AboveMax, bound@),
            )
        }),
{
    let _ = texts::law_trimmed_text_is_the_middle(value);
}

/// The words for yes and no, in any case of letters and with white space around
/// them, are accepted, and no others are.
pub proof fn law_bool_value(
    var: BlueprintInput,
    value: Seq<char>,
    number: NumberVerdict,
    pattern: PatternVerdict,
    url: UrlVerdict,
)
    requires
        !blank(value),
        var.kind is Bool,
    ensures
        ({
            let f = blueprint::value_fault(var, value, number, pattern, url);
            &&& f is None <==> seq![
                "true"@,
                "false"@,
                "1"@,
                "0"@,
                "yes"@,
                "no"@,
                "on"@,
                "off"@,
            ].contains(text::lowered(text::trimmed(value)))
            &&& f is Some ==> (f->0).0 == InputFault::NotBool
        }),
{
    let _ = texts::law_trimmed_text_is_the_middle(value);
    let words = seq!["true"@, "false"@, "1"@, "0"@, "yes"@, "no"@, "on"@, "off"@];
    assert(words[0] == "true"@ && words[1] == "false"@ && words[2] == "1"@ && words[3] == "0"@);
    assert(words[4] == "yes"@ && words[5] == "no"@ && words[6] == "on"@ && words[7] == "off"@);
    let low = text::lowered(text::trimmed(value));
    if words.contains(low) {
        let i = choose|i: int| 0 <= i < words.len() && words[i] == low;
        assert(words[i] == low);
        assert(i == 0 || i == 1 || i == 2 || i == 3 || i == 4 || i == 5 || i == 6 || i == 7);
    }
}

/// A choice is accepted if and only if it is one of the options, but for white
/// space around it.
pub proof fn law_choice_value(
    var: BlueprintInput,
    value: Seq<char>,
    number: NumberVerdict,
    pattern: PatternVerdict,
    url: UrlVerdict,
)
    requires
        !blank(value),
        var.kind is Choice,
    ensures
        ({
            let f = blueprint::value_fault(var, value, number, pattern, url);
            let options = var.kind->options@;
            &&& f is None <==> exists|i: int|
                0 <= i < options.len() && (#[trigger] options[i])@ == text::trimmed(value)
            &&& f is Some ==> (f->0).0 == InputFault::NotChoice
        }),
{
    let _ = texts::law_trimmed_text_is_the_middle(value);
    let options = var.kind->options@;
    let t = text::trimmed(value);
    if text::views(options).contains(t) {
        let i = choose|i: int| 0 <= i < text::views(options).len() && text::views(options)[i] == t;
        assert(options[i]@ == t);
    }
    if exists|i: int| 0 <= i < options.len() && (#[trigger] options[i])@ == t {
        let i = choose|i: int| 0 <= i < options.len() && (#[trigger] options[i])@ == t;
        assert(text::views(options)[i] == t);
    }
}

/// A path is accepted if and only if it is no longer than it may be, begins neither
/// at the root nor at a home, holds no zero and never leads up.
pub proof fn law_path_value(
    var: BlueprintInput,
    value: Seq<char>,
    number: NumberVerdict,
    pattern: PatternVerdict,
    url: UrlVerdict,
)
    requires
        !blank(value),
        var.kind is Path,
    ensures
        ({
            let f = blueprint::value_fault(var, value, number, pattern, url);
            let max = var.kind->Path_max_len;
            let t = text::trimmed(value);
            let long = max is Some && value.len() > max->0;
            &&& f is None <==> !long && t[0] != '/' && t[0] != '~' && !holds(t, '\0')
                && !text::split_on(t, '/').contains(seq!['.', '.'])
            &&& long ==> f == Some((InputFault::TooLong, text::decimal(max->0 as int)))
            &&& !long && t[0] == '/' ==> (f->0).0 == InputFault::PathAbsolute
            &&& !long && t[0] == '~' ==> (f->0).0 == InputFault::PathHome
        }),
{
    let _ = texts::law_trimmed_text_is_the_middle(value);
    let t = text::trimmed(value);
    if text::mentions(t, '\0') {
        let i = choose|i: int| 0 <= i < t.len() && t[i] == '\0';
        assert(t[i] == '\0');
    }
    if holds(t, '\0') {
        let i = choose|i: int| 0 <= i < t.len() && #[trigger] t[i] == '\0';
        assert(t[i] == '\0');
    }
}

/// The characters that mean something to a shell, as they are written.
pub open spec fn shell_char(c: char) -> bool {
    seq![
        ';', '|', '$', '`', '(', ')', '<', '>', '*', '~', '"', '\'', '{', '}', '[', ']', '!', '^',
        '\\', ' ', '\t', '\n', '\r', '\0',
    ].contains(c)
}

/// The characters of an ordinary address on the web.
pub open spec fn web_char(c: char) -> bool {
    'a' <= c <= 'z' || 'A' <= c <= 'Z' || '0' <= c <= '9' || c == '-' || c == '_' || c == '.' || c
        == ':' || c == '/' || c == '?' || c == '#' || c == '@' || c == '&' || c == '=' || c == '+'
        || c == ',' || c == '%'
}

/// The characters of a host.
pub open spec fn name_of_host(host: Seq<char>) -> bool {
    forall|i: int|
        0 <= i < host.len() ==> ('a' <= #[trigger] host[i] <= 'z' || 'A' <= host[i] <= 'Z' || '0'
            <= host[i] <= '9' || host[i] == '.' || host[i] == '-' || host[i] == '_' || host[i] == ':'
            || host[i] == '[' || host[i] == ']' || host[i] == '%')
}

/// A URL that is accepted is one of the web with a host of host characters, and
/// holds nothing that means something to a shell.
pub proof fn law_accepted_url(
    var: BlueprintInput,
    value: Seq<char>,
    number: NumberVerdict,
    pattern: PatternVerdict,
    url: UrlVerdict,
)
    requires
        !blank(value),
        var.kind is Url,
        blueprint::value_fault(var, value, number, pattern, url) is None,
    ensures
        url.scheme is Some && (url.scheme->0@ == "http"@ || url.scheme->0@ == "https"@),
        url.host is Some && url.host->0@.len() > 0 && name_of_host(url.host->0@),
        forall|i: int|
            0 <= i < text::trimmed(value).len() ==> !shell_char(#[trigger] text::trimmed(value)[i]),
{
    let _ = texts::law_trimmed_text_is_the_middle(value);
    let t = text::trimmed(value);
    assert(blueprint::url_fault(t, url) is None);
    assert forall|i: int| 0 <= i < t.len() implies !shell_char(#[trigger] t[i]) by {
        assert(!blueprint::injectable(t[i]));
    }
    let h = url.host->0@;
    assert forall|i: int| 0 <= i < h.len() implies ('a' <= #[trigger] h[i] <= 'z' || 'A' <= h[i]
        <= 'Z' || '0' <= h[i] <= '9' || h[i] == '.' || h[i] == '-' || h[i] == '_' || h[i] == ':'
        || h[i] == '[' || h[i] == ']' || h[i] == '%') by {
        assert(blueprint::host_char(h[i]));
    }
}

/// A URL of the web in ordinary characters, with a host, is accepted.
pub proof fn law_ordinary_url_is_accepted(
    var: BlueprintInput,
    value: Seq<char>,
    number: NumberVerdict,
    pattern: PatternVerdict,
    url: UrlVerdict,
)
    requires
        var.kind is Url,
        value.len() > 0,
        url.scheme is Some && (url.scheme->0@ == "http"@ || url.scheme->0@ == "https"@),
        url.host is Some && url.host->0@.len() > 0 && name_of_host(url.host->0@),
        forall|i: int| 0 <= i < value.len() ==> web_char(#[trigger] value[i]),
    ensures
        blueprint::value_fault(var, value, number, pattern, url) is None,
{
    assert(web_char(value[0]) && web_char(value[value.len() - 1]));
    let none = Seq::<char>::empty();
    texts::law_trimming_takes_the_ends_off(none, value, none);
    assert(none + value + none =~= value);
    assert forall|i: int| 0 <= i < value.len() implies !blueprint::injectable(
        #[trigger] value[i],
    ) by {
        assert(web_char(value[i]));
    }
    let h = url.host->0@;
    assert forall|i: int| 0 <= i < h.len() implies blueprint::host_char(#[trigger] h[i]) by {}
}

/// A URL that is refused is refused for its scheme, its host, or a character.
pub proof fn law_refused_url(
    var: BlueprintInput,
    value: Seq<char>,
    number: NumberVerdict,
    pattern: PatternVerdict,
    url: UrlVerdict,
)
    requires
        !blank(value),
        var.kind is Url,
    ensures
        ({
            let f = blueprint::value_fault(var, value, number, pattern, url);
            &&& url.scheme is None ==> (f->0).0 == InputFault::NotUrl && f is Some
            &&& url.scheme is Some && url.scheme->0@ != "http"@ && url.scheme->0@ != "https"@
                ==> f is Some && (f->0).0 == InputFault::NotUrl
            &&& url.scheme is Some && url.scheme->0@ == "https"@ && url.host is None ==> f is Some
                && (f->0).0 == InputFault::NoHost
        }),
{
    let _ = texts::law_trimmed_text_is_the_middle(value);
}

/// A value that was given last takes the place of earlier ones and of the default;
/// one for another name changes nothing.
pub proof fn law_given_value_takes_the_place_of_the_default(
    var: BlueprintInput,
    given: Seq<(Seq<char>, Seq<char>)>,
    name: Seq<char>,
    value: Seq<char>,
)
    ensures
        blueprint::value_of(var, Seq::empty()) == var.default_value@,
        name == var.env_var@ ==> blueprint::value_of(var, given.push((name, value))) == value,
        name != var.env_var@ ==> blueprint::value_of(var, given.push((name, value)))
            == blueprint::value_of(var, given),
{
    assert(given.push((name, value)).drop_last() =~= given);
}

/// What a server is told of its inputs: each that its owner may see, each other
/// one that has a value, in order and under its name.
pub proof fn law_inputs_are_told(
    vars: Seq<BlueprintInput>,
    values: Seq<Seq<char>>,
    var: BlueprintInput,
    value: Seq<char>,
)
    requires
        vars.len() == values.len(),
    ensures
        blueprint::env_inputs(Seq::empty(), values) == Seq::<(Seq<char>, Seq<char>)>::empty(),
        var.user_viewable || value.len() > 0 ==> blueprint::env_inputs(
            vars.push(var),
            values.push(value),
        ) == blueprint::env_inputs(vars, values).push((var.env_var@, value)),
        !var.user_viewable && value.len() == 0 ==> blueprint::env_inputs(
            vars.push(var),
            values.push(value),
        ) == blueprint::env_inputs(vars, values),
{
    assert(vars.push(var).drop_last() =~= vars);
    lemma_env_inputs(vars, values, values.push(value));
}

/// Values behind those of some inputs tell nothing of them.
proof fn lemma_env_inputs(vars: Seq<BlueprintInput>, a: Seq<Seq<char>>, b: Seq<Seq<char>>)
    requires
        forall|i: int| 0 <= i < vars.len() ==> #[trigger] a[i] == b[i],
    ensures
        blueprint::env_inputs(vars, a) == blueprint::env_inputs(vars, b),
    decreases vars.len(),
{
    if vars.len() > 0 {
        lemma_env_inputs(vars.drop_last(), a, b);
        assert(a[vars.len() - 1] == b[vars.len() - 1]);
    }
}

/// What a server is told of the variables of its egg: each that its owner may see,
/// each other one that has a value, in order and under its name.
pub proof fn law_variables_are_told(
    vars: Seq<EggVariable>,
    values: Seq<Seq<char>>,
    var: EggVariable,
    value: Seq<char>,
)
    requires
        vars.len() == values.len(),
    ensures
        egg::env_variables(Seq::empty(), values) == Seq::<(Seq<char>, Seq<char>)>::empty(),
        var.user_viewable || value.len() > 0 ==> egg::env_variables(
            vars.push(var),
            values.push(value),
        ) == egg::env_variables(vars, values).push((var.env_var@, value)),
        !var.user_viewable && value.len() == 0 ==> egg::env_variables(
            vars.push(var),
            values.push(value),
        ) == egg::env_variables(vars, values),
{
    assert(vars.push(var).drop_last() =~= vars);
    lemma_env_variables(vars, values, values.push(value));
}

/// Values behind those of some variables tell nothing of them.
proof fn lemma_env_variables(vars: Seq<EggVariable>, a: Seq<Seq<char>>, b: Seq<Seq<char>>)
    requires
        forall|i: int| 0 <= i < vars.len() ==> #[trigger] a[i] == b[i],
    ensures
        egg::env_variables(vars, a) == egg::env_variables(vars, b),
    decreases vars.len(),
{
    if vars.len() > 0 {
        lemma_env_variables(vars.drop_last(), a, b);
        assert(a[vars.len() - 1] == b[vars.len() - 1]);
    }
}

/// What a server is told of its workspace.
pub proof fn law_workspace_is_told(server: Server, dir: Seq<char>)
    ensures
        ({
            let e = blueprint::env_workspace(server, dir);
            &&& e.len() == 8
            &&& e[0] == ("HOME"@, dir) && e[1] == ("PWD"@, dir)
            &&& e[2] == ("SERVER_UUID"@, server.uuid@) && e[3] == ("SERVER_NAME"@, server.name@)
            &&& e[4] == ("SERVER_MEMORY"@, text::decimal(server.memory_mb as int))
            &&& e[5] == ("SERVER_DISK"@, text::decimal(server.disk_mb as int))
            &&& e[6] == ("SERVER_CPU"@, text::decimal(server.cpu_percent as int))
            &&& e[7].0 == "SERVER_PORT"@
            &&& server.port is None ==> e[7].1.len() == 0
            &&& server.port is Some ==> e[7].1 == text::decimal(server.port->0 as int)
        }),
{
}

/// Values are not accepted where one that is required is missing.
pub proof fn law_missing_value_is_refused(
    vars: Seq<BlueprintInput>,
    values: Seq<Seq<char>>,
    dir: Seq<char>,
    fs: Seq<Findings>,
    r: Result<(), InputError>,
    i: int,
)
    requires
        blueprint::is_values_answer(vars, values, dir, fs, r),
        0 <= i < vars.len(),
        vars[i].required,
        blank(values[i]),
    ensures
        r is Err,
{
    if r is Ok {
        assert(blueprint::is_value_answer(vars[i], values[i], dir, fs[i], Ok(())));
        let (p, u) = choose|p: PatternVerdict, u: UrlVerdict|
            #![trigger blueprint::value_fault(vars[i], values[i], fs[i].number, p, u)]
            blueprint::is_pattern_verdict(vars[i], values[i], p) && blueprint::is_url_verdict(
                text::trimmed(values[i]),
                u,
            ) && blueprint::is_verdict(
                match blueprint::value_fault(vars[i], values[i], fs[i].number, p, u) {
                    Some(x) => Some(x),
                    None => if vars[i].kind is Path && text::trimmed(values[i]).len() > 0
                        && blueprint::escapes(
                        match fs[i].root {
                            Some(s) => Some(s@),
                            None => None,
                        },
                        paths::joined(dir, text::trimmed(values[i])),
                        fs[i].found@,
                    ) {
                        Some((InputFault::SymlinkEscape, Seq::<char>::empty()))
                    } else {
                        None
                    },
                },
                vars[i].env_var@,
                Ok(()),
            );
        law_blank_value(vars[i], values[i], fs[i].number, p, u);
    }
}

/// Values of which each one is accepted are accepted.
pub proof fn law_good_values_are_accepted(
    vars: Seq<BlueprintInput>,
    values: Seq<Seq<char>>,
    dir: Seq<char>,
    fs: Seq<Findings>,
)
    requires
        forall|i: int|
            0 <= i < vars.len() ==> blueprint::is_value_answer(
                #[trigger] vars[i],
                values[i],
                dir,
                fs[i],
                Ok(()),
            ),
    ensures
        blueprint::is_values_answer(vars, values, dir, fs, Ok(())),
{
}

/// A path that is found leads out if and only if it is found outside the root, and
/// where only a part of it is found, what is not found is looked for there.
pub proof fn law_path_leads_out(
    root: Seq<char>,
    path: Seq<char>,
    found: Seq<Option<String>>,
    k: int,
)
    requires
        0 <= k < found.len(),
        found[k] is Some,
        forall|j: int| 0 <= j < k ==> #[trigger] found[j] is None,
        k <= paths::parts(path).len(),
        forall|j: int|
            paths::parts(path).len() - k <= j < paths::parts(path).len() ==> #[trigger] paths::parts(
                path,
            )[j] != seq!['.', '.'],
    ensures
        k == 0 ==> (blueprint::escapes(Some(root), path, found) <==> !paths::is_within(
            found[0]->0@,
            root,
        )),
        k == 1 ==> (blueprint::escapes(Some(root), path, found) <==> !paths::is_within(
            paths::joined(found[1]->0@, paths::parts(path).last()),
            root,
        )),
        blueprint::escapes(Some(root), path, found) <==> !paths::is_within(
            blueprint::joined_all(
                found[k]->0@,
                paths::parts(path).subrange(
                    paths::parts(path).len() - k,
                    paths::parts(path).len() as int,
                ),
            ),
            root,
        ),
        !blueprint::escapes(None, path, found),
{
    let ps = paths::parts(path);
    lemma_nearest(ps, found, 0, k);
    let tail = ps.subrange(ps.len() - k, ps.len() as int);
    assert(ps.skip(ps.len() - k) =~= tail);
    if k == 1 {
        assert(tail.drop_last().len() == 0);
        assert(tail.last() == ps.last());
        assert(blueprint::joined_all(found[k]->0@, tail.drop_last()) == found[k]->0@);
    }
}

/// The nearest place that is found.
proof fn lemma_nearest(ps: Seq<Seq<char>>, found: Seq<Option<String>>, from: int, k: int)
    requires
        0 <= from <= k < found.len(),
        found[k] is Some,
        forall|j: int| 0 <= j < k ==> #[trigger] found[j] is None,
        k <= ps.len(),
        forall|j: int| ps.len() - k <= j < ps.len() ==> #[trigger] ps[j] != seq!['.', '.'],
    ensures
        blueprint::nearest(ps, found, from) == Some((k, found[k]->0@)),
    decreases k - from,
{
    if from < k {
        assert(found[from] is None);
        assert(ps[ps.len() - from - 1] != seq!['.', '.']);
        lemma_nearest(ps, found, from + 1, k);
    }
}

/// A declaration is refused where its name is blank or was declared before, where
/// its pattern cannot be read, or where it is a choice of nothing.
pub proof fn law_bad_declaration(
    vars: Seq<BlueprintInput>,
    i: int,
    number: NumberVerdict,
    r: Result<(), DeclError>,
)
    requires
        0 <= i < vars.len(),
        blueprint::is_decl_answer(vars, i, number, r),
    ensures
        blank(vars[i].env_var@) ==> (r matches Err(DeclError::NoName { index }) && index == i + 1),
        !blank(vars[i].env_var@) && (exists|j: int|
            0 <= j < i && (#[trigger] vars[j]).env_var@ == vars[i].env_var@) ==> (r matches Err(
            DeclError::Duplicate { index, name },
        ) && index == i + 1 && name@ == vars[i].env_var@),
        r is Ok ==> !blank(vars[i].env_var@) && forall|j: int|
            0 <= j < i ==> (#[trigger] vars[j]).env_var@ != vars[i].env_var@,
        r is Ok && vars[i].kind is Choice ==> vars[i].kind->options@.len() > 0,
        r is Ok && vars[i].kind is Text && vars[i].kind->Text_pattern is Some
            ==> blueprint::regex_error(vars[i].kind->Text_pattern->0@) is None,
        r is Ok && vars[i].required ==> !blank(vars[i].default_value@),
{
    let var = vars[i];
    let _ = texts::law_trimmed_text_is_the_middle(var.env_var@);
    if r is Ok && var.required && blank(var.default_value@) {
        assert forall|p: PatternVerdict, u: UrlVerdict|
            blueprint::value_fault(var, var.default_value@, number, p, u) is Some by {
            law_blank_value(var, var.default_value@, number, p, u);
        }
        assert(false);
    }
}

/// A tail is all that fits: a text that fits is its own tail, and of another no
/// longer tail would fit.
pub proof fn law_tail_is_all_that_fits(s: Seq<char>, n: nat)
    ensures
        ({
            let t = blueprint::text_tail(s, n);
            &&& t.len() <= s.len() && t == s.skip(s.len() - t.len())
            &&& text::byte_len(s) <= n ==> t == s
            &&& t.len() < s.len() ==> text::byte_len(s.skip(s.len() - t.len() - 1)) > n
            &&& text::byte_len(t) <= n
        }),
    decreases s.len(),
{
    if s.len() == 0 || text::byte_len(s) <= n {
        assert(s.skip(0) =~= s);
    } else {
        law_tail_is_all_that_fits(s.drop_first(), n);
        let t = blueprint::text_tail(s, n);
        let d = s.drop_first();
        assert(d.skip(d.len() - t.len()) =~= s.skip(s.len() - t.len()));
        if t.len() < d.len() {
            assert(d.skip(d.len() - t.len() - 1) =~= s.skip(s.len() - t.len() - 1));
        } else {
            assert(s.skip(0) =~= s);
        }
    }
}

/// There is a script where there is one that holds more than white space.
pub proof fn law_blank_script_is_none(script: Option<String>)
    ensures
        blueprint::has_script(script) <==> script is Some && !blank(script->0@),
{
    if script is Some {
        let _ = texts::law_trimmed_text_is_the_middle(script->0@);
    }
}

/// The last line of a text stands behind its last line end but the one that closes
/// it, and a carriage return before that is no part of it.
pub proof fn law_last_line(front: Seq<char>, line: Seq<char>)
    requires
        line.len() > 0,
        line.last() != '\r',
        forall|i: int| 0 <= i < line.len() ==> #[trigger] line[i] != '\n',
    ensures
        text::last_line(line) == Some(line),
        text::last_line(front + seq!['\n'] + line) == Some(line),
        text::last_line(front + seq!['\n'] + line + seq!['\n']) == Some(line),
        text::last_line(front + seq!['\n'] + line + seq!['\r', '\n']) == Some(line),
        text::last_line(Seq::empty()) is None,
        blueprint::failure_line(front + seq!['\n'] + line) == line,
        blueprint::failure_line(Seq::empty()) == "unknown error"@,
{
    let s = front + seq!['\n'] + line;
    lemma_last_piece(front, line);
    lemma_one_piece(line);
    assert(s.last() == line.last());
    assert((s + seq!['\n']).drop_last() =~= s);
    let r = line + seq!['\r'];
    assert forall|i: int| 0 <= i < r.len() implies #[trigger] r[i] != '\n' by {
        if i < line.len() {
            assert(r[i] == line[i]);
        }
    }
    lemma_last_piece(front, r);
    assert((s + seq!['\r', '\n']).drop_last() =~= front + seq!['\n'] + r);
    assert(r.drop_last() =~= line);
}

/// A text without the separator is its only piece.
proof fn lemma_one_piece(line: Seq<char>)
    requires
        forall|i: int| 0 <= i < line.len() ==> #[trigger] line[i] != '\n',
    ensures
        text::split_on(line, '\n') == seq![line],
    decreases line.len(),
{
    if line.len() == 0 {
        assert(line =~= Seq::<char>::empty());
        assert(text::split_on(line, '\n') =~= seq![line]);
    } else {
        let d = line.drop_last();
        assert forall|i: int| 0 <= i < d.len() implies #[trigger] d[i] != '\n' by {
            assert(d[i] == line[i]);
        }
        lemma_one_piece(d);
        assert(line.last() == line[line.len() - 1]);
        assert(d.push(line.last()) =~= line);
        assert(text::split_on(line, '\n') =~= seq![line]);
    }
}

/// The last piece of a text.
proof fn lemma_last_piece(front: Seq<char>, line: Seq<char>)
    requires
        forall|i: int| 0 <= i < line.len() ==> #[trigger] line[i] != '\n',
    ensures
        text::split_on(front + seq!['\n'] + line, '\n').len() > 0,
        text::split_on(front + seq!['\n'] + line, '\n').last() == line,
    decreases line.len(),
{
    let s = front + seq!['\n'] + line;
    if line.len() == 0 {
        assert(s.last() == '\n');
        assert(line =~= Seq::<char>::empty());
    } else {
        let d = line.drop_last();
        assert forall|i: int| 0 <= i < d.len() implies #[trigger] d[i] != '\n' by {
            assert(d[i] == line[i]);
        }
        lemma_last_piece(front, d);
        assert(s.drop_last() =~= front + seq!['\n'] + d);
        assert(s.last() == line.last() && line.last() == line[line.len() - 1]);
        assert(d.push(line.last()) =~= line);
    }
}

/// The first line of a text stands before its first line end, and a carriage return
/// before that is no part of it.
pub proof fn law_first_line(line: Seq<char>, rest: Seq<char>)
    requires
        forall|i: int| 0 <= i < line.len() ==> #[trigger] line[i] != '\n',
        line.len() > 0 ==> line.last() != '\r',
    ensures
        egg::first_line(line + seq!['\n'] + rest) == Some(line),
        egg::first_line(line + seq!['\r', '\n'] + rest) == Some(line),
        line.len() > 0 ==> egg::first_line(line) == Some(line),
        egg::first_line(Seq::empty()) is None,
{
    let a = line + seq!['\n'] + rest;
    let b = line + seq!['\r', '\n'] + rest;
    let n = line.len() as int;
    assert forall|i: int| 0 <= i < n implies #[trigger] a[i] != '\n' by {
        assert(a[i] == line[i]);
    }
    assert forall|i: int| 0 <= i < n + 1 implies #[trigger] b[i] != '\n' by {
        if i < n {
            assert(b[i] == line[i]);
        }
    }
    lemma_line_end(a, 0, n);
    lemma_line_end(b, 0, n + 1);
    lemma_line_end(line, 0, n);
    assert(a.take(n) =~= line);
    assert(b.take(n) =~= line);
    assert(line.take(n) =~= line);
    if n > 0 {
        assert(a[n - 1] == line.last());
    }
}

/// Where the first line ends.
proof fn lemma_line_end(s: Seq<char>, i: int, n: int)
    requires
        0 <= i <= n <= s.len(),
        forall|j: int| i <= j < n ==> #[trigger] s[j] != '\n',
        n < s.len() ==> s[n] == '\n',
    ensures
        egg::line_end(s, i) == n,
    decreases n - i,
{
    if i < n {
        assert(s[i] != '\n');
        lemma_line_end(s, i + 1, n);
    }
}

/// A rule is read whatever white space stands around it: by its word, or by its
/// word, a colon and what it asks for.
pub proof fn law_rules_are_read(before: Seq<char>, what: Seq<char>, after: Seq<char>, rule: Rule)
    requires
        blank(before),
        blank(after),
        what.len() > 0 && !text::is_space(what[0]) && !text::is_space(what.last()),
    ensures
        egg::is_rule(before + "required"@ + after, rule) <==> rule is Required,
        egg::is_rule(before + "numeric"@ + after, rule) <==> rule is Numeric,
        egg::is_rule(before + ("min:"@ + what) + after, rule) <==> (rule matches Rule::Min { least }
            && least@ == what),
        egg::is_rule(before + ("max:"@ + what) + after, rule) <==> (rule matches Rule::Max {
            greatest,
        } && greatest@ == what),
        egg::is_rule(before + ("regex:"@ + what) + after, rule) <==> (rule matches Rule::Pattern {
            pattern,
        } && pattern@ == what),
{
    reveal_strlit("required");
    reveal_strlit("numeric");
    reveal_strlit("min:");
    reveal_strlit("max:");
    reveal_strlit("regex:");
    texts::law_trimming_takes_the_ends_off(before, "required"@, after);
    texts::law_trimming_takes_the_ends_off(before, "numeric"@, after);
    assert("required"@[0] != "numeric"@[0]);
    let none = Seq::<char>::empty();
    texts::law_trimming_takes_the_ends_off(none, what, none);
    assert(none + what + none =~= what);
    let a = "min:"@ + what;
    let b = "max:"@ + what;
    let c = "regex:"@ + what;
    assert(a.last() == what.last() && b.last() == what.last() && c.last() == what.last());
    texts::law_trimming_takes_the_ends_off(before, a, after);
    texts::law_trimming_takes_the_ends_off(before, b, after);
    texts::law_trimming_takes_the_ends_off(before, c, after);
    assert(a.skip(4) =~= what && b.skip(4) =~= what && c.skip(6) =~= what);
    assert(a.take(4) =~= "min:"@ && b.take(4) =~= "max:"@ && c.take(6) =~= "regex:"@);
    assert(a[0] == 'm' && b[0] == 'm' && c[0] == 'r');
    assert(a[1] == 'i' && b[1] == 'a' && c[1] == 'e');
    assert(c[2] == 'g' && "required"@[2] == 'q');
    assert("numeric"@[0] == 'n' && "required"@[0] == 'r');
    assert("min:"@[1] == 'i' && "max:"@[1] == 'a' && "max:"@[0] == 'm' && "min:"@[0] == 'm');
    assert(b.take(4)[1] == 'a');
    assert(c.take(4)[0] == 'r');
}

/// A value is accepted if and only if it meets every one of its rules: it is not
/// blank where one is required, its bounds can be read, its patterns match, and it
/// is neither too small nor too large, by its number where one is asked for and by
/// its length where not.
pub proof fn law_value_meets_its_rules(
    rules: Seq<Rule>,
    value: Seq<char>,
    bounded: Seq<bool>,
    patterns: Seq<Option<EggFault>>,
    number: NumberVerdict,
    length: NumberVerdict,
)
    ensures
        egg::value_fault(rules, value, bounded, patterns, number, length) is None <==> {
            &&& forall|i: int| 0 <= i < rules.len() && #[trigger] rules[i] is Required ==> !blank(value)
            &&& forall|i: int|
                0 <= i < rules.len() && ((#[trigger] rules[i]) is Min || rules[i] is Max)
                    ==> bounded[i]
            &&& forall|i: int|
                0 <= i < rules.len() && #[trigger] rules[i] is Pattern ==> patterns[i] is None
            &&& if exists|i: int| 0 <= i < rules.len() && #[trigger] rules[i] is Numeric {
                !(number is NotANumber) && !(number is TooLow) && !(number is TooHigh)
            } else {
                &&& length is TooLow ==> forall|i: int|
                    0 <= i < rules.len() ==> !(#[trigger] rules[i] is Min)
                &&& length is TooHigh ==> forall|i: int|
                    0 <= i < rules.len() ==> !(#[trigger] rules[i] is Max)
            }
        },
{
    let _ = texts::law_trimmed_text_is_the_middle(value);
    lemma_rules_met(rules, value, bounded, patterns, rules.len() as int);
}

/// Whether a value meets one of its rules, bounds aside.
pub open spec fn meets(rule: Rule, value: Seq<char>, bounded: bool, pattern: Option<EggFault>) -> bool {
    &&& rule is Required ==> !blank(value)
    &&& rule is Min || rule is Max ==> bounded
    &&& rule is Pattern ==> pattern is None
}

/// The first rules are met, or there is a first fault.
proof fn lemma_rules_met(
    rules: Seq<Rule>,
    value: Seq<char>,
    bounded: Seq<bool>,
    patterns: Seq<Option<EggFault>>,
    n: int,
)
    requires
        0 <= n <= rules.len(),
    ensures
        egg::first_fault(rules, value, bounded, patterns, n) is None <==> forall|i: int|
            0 <= i < n ==> meets(#[trigger] rules[i], value, bounded[i], patterns[i]),
    decreases n,
{
    if n > 0 {
        lemma_rules_met(rules, value, bounded, patterns, n - 1);
        let _ = texts::law_trimmed_text_is_the_middle(value);
        let k = n - 1;
        assert(egg::rule_fault(rules[k], value, bounded[k], patterns[k]) is None <==> meets(
            rules[k],
            value,
            bounded[k],
            patterns[k],
        ));
        if egg::first_fault(rules, value, bounded, patterns, n) is None {
            assert forall|i: int| 0 <= i < n implies meets(
                #[trigger] rules[i],
                value,
                bounded[i],
                patterns[i],
            ) by {
                if i < n - 1 {
                    assert(meets(rules[i], value, bounded[i], patterns[i]));
                }
            }
        }
    }
}

/// A value is refused for the first rule that it does not meet, whatever follows.
pub proof fn law_first_unmet_rule_decides(
    rules: Seq<Rule>,
    value: Seq<char>,
    bounded: Seq<bool>,
    patterns: Seq<Option<EggFault>>,
    number: NumberVerdict,
    length: NumberVerdict,
    k: int,
)
    requires
        0 <= k < rules.len(),
        forall|i: int|
            0 <= i < k ==> meets(#[trigger] rules[i], value, bounded[i], patterns[i]),
        !meets(rules[k], value, bounded[k], patterns[k]),
    ensures
        ({
            let f = egg::value_fault(rules, value, bounded, patterns, number, length);
            &&& f is Some && (f->0).1.len() == 0
            &&& rules[k] is Required ==> (f->0).0 == EggFault::Required
            &&& rules[k] is Min ==> (f->0).0 == EggFault::InvalidMin
            &&& rules[k] is Max ==> (f->0).0 == EggFault::InvalidMax
            &&& rules[k] is Pattern ==> Some((f->0).0) == patterns[k]
        }),
{
    lemma_rules_met(rules, value, bounded, patterns, k);
    let _ = texts::law_trimmed_text_is_the_middle(value);
    lemma_first_stays(rules, value, bounded, patterns, k + 1, rules.len() as int);
}

/// The first fault is not changed by later rules.
proof fn lemma_first_stays(
    rules: Seq<Rule>,
    value: Seq<char>,
    bounded: Seq<bool>,
    patterns: Seq<Option<EggFault>>,
    k: int,
    n: int,
)
    requires
        0 <= k <= n,
        egg::first_fault(rules, value, bounded, patterns, k) is Some,
    ensures
        egg::first_fault(rules, value, bounded, patterns, n) == egg::first_fault(
            rules,
            value,
            bounded,
            patterns,
            k,
        ),
    decreases n - k,
{
    if k < n {
        lemma_first_stays(rules, value, bounded, patterns, k, n - 1);
    }
}

/// A pattern is met if and only if it can be read and matches.
pub proof fn law_pattern_is_met(refused: bool, matches: bool)
    ensures
        egg::pattern_fault(refused, matches) is None <==> !refused && matches,
        refused ==> egg::pattern_fault(refused, matches) == Some(EggFault::InvalidPattern),
        !refused && !matches ==> egg::pattern_fault(refused, matches) == Some(EggFault::NoMatch),
{
}

/// Nothing is launched with a value missing that is required, and what is launched is
/// what the template renders to.
pub proof fn law_launches(
    w: Workspace,
    template: Seq<char>,
    quote: bool,
    r: Result<String, LaunchError>,
    i: int,
)
    requires
        blueprint::is_launch_answer(w, template, quote, r),
    ensures
        0 <= i < w.vars@.len() && w.vars@[i].required && blank(text::views(w.values@)[i])
            ==> (r matches Err(LaunchError::Input(_))),
        r matches Ok(s) ==> blueprint::is_rendered(template, w.context(), quote, Ok(s)),
        r matches Err(LaunchError::Render(e)) ==> blueprint::is_rendered(
            template,
            w.context(),
            quote,
            Err(e),
        ),
        !(r matches Err(LaunchError::Config { .. })),
{
    if 0 <= i < w.vars@.len() && w.vars@[i].required && blank(text::views(w.values@)[i]) {
        if !(r matches Err(LaunchError::Input(_))) {
            law_missing_value_is_refused(
                w.vars@,
                text::views(w.values@),
                w.dir@,
                w.findings@,
                Ok(()),
                i,
            );
        }
    }
}

/// Inputs are declared well only where each one is.
pub proof fn law_good_declarations(
    vars: Seq<BlueprintInput>,
    numbers: Seq<NumberVerdict>,
    r: Result<(), DeclError>,
    i: int,
)
    requires
        vars.len() == numbers.len(),
        blueprint::is_decls_answer(vars, numbers, r),
        0 <= i < vars.len(),
    ensures
        blank(vars[i].env_var@) ==> r is Err,
        (exists|j: int| 0 <= j < i && (#[trigger] vars[j]).env_var@ == vars[i].env_var@) ==> r is Err,
        vars[i].kind is Choice && vars[i].kind->options@.len() == 0 ==> r is Err,
        vars[i].required && blank(vars[i].default_value@) ==> r is Err,
{
    if r is Ok {
        assert(blueprint::is_decl_answer(vars, i, numbers[i], Ok(())));
        law_bad_declaration(vars, i, numbers[i], Ok(()));
    }
}

} // verus!
