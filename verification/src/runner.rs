//! The node runner's decisions: what each kind of node asks of its
//! surroundings, given its parameters, and what it reports afterwards. The
//! actions themselves are performed by the caller.

use vstd::prelude::*;
use vstd::string::StringExecFns;
use vstd::utf8::encode_utf8;
use crate::models::{
    outcome_view, texts, CommandStatus, NodeOutcome, NodePlan, NodeType, OutcomeView,
    ParamValue, PlanView, Step, StepView, WorkflowNode,
};
use crate::params::{
    filled, filled_text, get, get_text, list_in, millis, millis_in, param, text_in, text_param,
    text_view,
};
use crate::text::{
    chars_of, decimal, eq_ignore_ascii_case, hex_char, hex_digit, join_path, joined_path,
    lemma_rewritten_push, push_char, push_decimal, push_signed_decimal, rewritten,
    same_ignoring_ascii_case, signed_decimal, text_of, trim, trimmed,
};

verus! {

/// How one character is written inside a quoted AppleScript text: a
/// backslash before each backslash and before each double quote.
pub open spec fn applescript_char(c: char) -> Seq<char> {
    if c == '\\' {
        seq!['\\', '\\']
    } else if c == '"' {
        seq!['\\', '"']
    } else {
        seq![c]
    }
}

/// How one character is written inside a single-quoted shell word: a single
/// quote ends the word, stands escaped, and opens the word again.
pub open spec fn shell_char(c: char) -> Seq<char> {
    if c == '\'' {
        seq!['\'', '\\', '\'', '\'']
    } else {
        seq![c]
    }
}

/// Whether a character stands for itself in a URL component.
pub open spec fn is_unreserved(c: char) -> bool {
    ('0' <= c <= '9') || ('a' <= c <= 'z') || ('A' <= c <= 'Z') || c == '-' || c == '_' || c == '.'
        || c == '~'
}

/// Whether a character is ASCII white space: space, tab, line feed, form
/// feed or carriage return.
pub open spec fn is_ascii_space(c: char) -> bool {
    c == ' ' || c == '\t' || c == '\n' || c == '\x0C' || c == '\r'
}

/// Each byte as `%` and two upper-case hexadecimal digits.
pub open spec fn percent_bytes(bytes: Seq<u8>) -> Seq<char>
    decreases bytes.len(),
{
    if bytes.len() == 0 {
        Seq::empty()
    } else {
        percent_bytes(bytes.drop_last()) + seq![
            '%',
            hex_char((bytes.last() / 16) as nat),
            hex_char((bytes.last() % 16) as nat),
        ]
    }
}

/// How one character is written in a URL component: unreserved characters
/// as they are, ASCII white space as `%20`, and any other character as the
/// bytes of its UTF-8 form, each percent-encoded.
pub open spec fn url_char(c: char) -> Seq<char> {
    if is_unreserved(c) {
        seq![c]
    } else if is_ascii_space(c) {
        seq!['%', '2', '0']
    } else {
        percent_bytes(encode_utf8(seq![c]))
    }
}

/// The rule that rewrites a text for AppleScript.
pub open spec fn applescript_rule() -> spec_fn(char) -> Seq<char> {
    |c: char| applescript_char(c)
}

/// The rule that rewrites a text for the shell.
pub open spec fn shell_rule() -> spec_fn(char) -> Seq<char> {
    |c: char| shell_char(c)
}

/// The rule that rewrites a text for a URL component.
pub open spec fn url_rule() -> spec_fn(char) -> Seq<char> {
    |c: char| url_char(c)
}

/// A text as it stands between the double quotes of an AppleScript text.
pub open spec fn escaped_for_applescript(text: Seq<char>) -> Seq<char> {
    rewritten(text, applescript_rule())
}

/// A text as it stands between the single quotes of a shell word.
pub open spec fn escaped_for_shell(text: Seq<char>) -> Seq<char> {
    rewritten(text, shell_rule())
}

/// A text as a URL component.
pub open spec fn encoded_for_url(text: Seq<char>) -> Seq<char> {
    rewritten(text, url_rule())
}

/// Escapes a text for use between the double quotes of an AppleScript text.
pub fn escape_for_applescript(text: &str) -> (escaped: String)
    ensures
        escaped@ == escaped_for_applescript(text@),
{
    let chars = chars_of(text);
    let mut escaped = String::new();
    let mut i: usize = 0;
    while i < chars.len()
        invariant
            i <= chars.len(),
            escaped@ == rewritten(chars@.take(i as int), applescript_rule()),
        decreases chars.len() - i,
    {
        let c = chars[i];
        let ghost before = escaped@;
        if c == '\\' || c == '"' {
            push_char(&mut escaped, '\\');
        }
        push_char(&mut escaped, c);
        proof {
            lemma_rewritten_push(chars@.take(i as int), c, applescript_rule());
            assert(chars@.take(i as int + 1) =~= chars@.take(i as int).push(c));
            assert(escaped@ =~= before + applescript_char(c));
        }
        i = i + 1;
    }
    assert(chars@.take(i as int) =~= chars@);
    escaped
}

/// Escapes a text for use between the single quotes of a shell word.
pub fn escape_for_shell(text: &str) -> (escaped: String)
    ensures
        escaped@ == escaped_for_shell(text@),
{
    let chars = chars_of(text);
    let mut escaped = String::new();
    let mut i: usize = 0;
    while i < chars.len()
        invariant
            i <= chars.len(),
            escaped@ == rewritten(chars@.take(i as int), shell_rule()),
        decreases chars.len() - i,
    {
        let c = chars[i];
        let ghost before = escaped@;
        if c == '\'' {
            push_char(&mut escaped, '\'');
            push_char(&mut escaped, '\\');
            push_char(&mut escaped, '\'');
        }
        push_char(&mut escaped, c);
        proof {
            lemma_rewritten_push(chars@.take(i as int), c, shell_rule());
            assert(chars@.take(i as int + 1) =~= chars@.take(i as int).push(c));
            assert(escaped@ =~= before + shell_char(c));
        }
        i = i + 1;
    }
    assert(chars@.take(i as int) =~= chars@);
    escaped
}

/// Appends each byte as `%` and two upper-case hexadecimal digits.
pub fn push_percent_bytes(out: &mut String, bytes: &[u8])
    ensures
        final(out)@ == old(out)@ + percent_bytes(bytes@),
{
    let mut k: usize = 0;
    assert(bytes@.take(0) =~= Seq::empty());
    while k < bytes.len()
        invariant
            k <= bytes.len(),
            out@ == old(out)@ + percent_bytes(bytes@.take(k as int)),
        decreases bytes.len() - k,
    {
        let b = bytes[k];
        let ghost before = out@;
        push_char(out, '%');
        push_char(out, hex_digit(b / 16));
        push_char(out, hex_digit(b % 16));
        proof {
            assert(bytes@.take(k as int + 1).drop_last() =~= bytes@.take(k as int));
            assert(bytes@.take(k as int + 1).last() == b);
            assert(out@ =~= old(out)@ + percent_bytes(bytes@.take(k as int + 1)));
        }
        k = k + 1;
    }
    assert(bytes@.take(k as int) =~= bytes@);
}

/// Encodes a text as a URL component.
pub fn encode_for_url_component(text: &str) -> (encoded: String)
    ensures
        encoded@ == encoded_for_url(text@),
{
    let chars = chars_of(text);
    let mut encoded = String::new();
    let mut i: usize = 0;
    while i < chars.len()
        invariant
            i <= chars.len(),
            encoded@ == rewritten(chars@.take(i as int), url_rule()),
        decreases chars.len() - i,
    {
        let c = chars[i];
        let ghost before = encoded@;
        if ('0' <= c && c <= '9') || ('a' <= c && c <= 'z') || ('A' <= c && c <= 'Z') || c == '-'
            || c == '_' || c == '.' || c == '~' {
            push_char(&mut encoded, c);
            assert(encoded@ =~= before + url_char(c));
        } else if c == ' ' || c == '\t' || c == '\n' || c == '\x0C' || c == '\r' {
            encoded.append("%20");
            proof {
                reveal_strlit("%20");
                assert(encoded@ =~= before + url_char(c));
            }
        } else {
            let mut one = String::new();
            push_char(&mut one, c);
            assert(one@ =~= seq![c]);
            push_percent_bytes(&mut encoded, one.as_str().as_bytes());
        }
        proof {
            lemma_rewritten_push(chars@.take(i as int), c, url_rule());
            assert(chars@.take(i as int + 1) =~= chars@.take(i as int).push(c));
        }
        i = i + 1;
    }
    assert(chars@.take(i as int) =~= chars@);
    encoded
}

/// The error for a home directory that is not known.
pub open spec fn home_unset() -> Seq<char> {
    "HOME is not set"@
}

/// A path with a `~` at its start replaced by the home directory: `~` alone
/// is the home directory, `~/rest` is `rest` joined to it, and any other
/// path stays as it is. Without a home directory the first two are errors.
pub open spec fn expanded(path: Seq<char>, home: Option<Seq<char>>) -> Result<
    Seq<char>,
    Seq<char>,
> {
    if path == seq!['~'] {
        match home {
            Some(h) => Ok(h),
            None => Err(home_unset()),
        }
    } else if path.len() >= 2 && path[0] == '~' && path[1] == '/' {
        match home {
            Some(h) => Ok(joined_path(h, path.subrange(2, path.len() as int))),
            None => Err(home_unset()),
        }
    } else {
        Ok(path)
    }
}

/// The view of a home directory that may be known.
pub open spec fn home_view(home: Option<&str>) -> Option<Seq<char>> {
    match home {
        Some(h) => Some(h@),
        None => None,
    }
}

/// Replaces a `~` at the start of a path by the home directory.
pub fn expand_tilde(path: &str, home: Option<&str>) -> (r: Result<String, String>)
    ensures
        outcome_view(r) == expanded(path@, home_view(home)),
{
    let chars = chars_of(path);
    if chars.len() == 1 && chars[0] == '~' {
        assert(path@ =~= seq!['~']);
        return match home {
            Some(h) => Ok(String::from_str(h)),
            None => Err(String::from_str("HOME is not set")),
        };
    }
    if chars.len() >= 2 && chars[0] == '~' && chars[1] == '/' {
        return match home {
            Some(h) => {
                let rest = text_of(&chars, 2, chars.len());
                Ok(join_path(h, rest.as_str()))
            },
            None => Err(String::from_str("HOME is not set")),
        };
    }
    Ok(String::from_str(path))
}

/// The step that runs `open` with the given arguments.
pub open spec fn open_step(args: Seq<Seq<char>>) -> StepView {
    StepView::Run { binary: "open"@, args }
}

/// The plan of a node that cannot do its work, with the reason.
pub open spec fn refused(reason: Seq<char>) -> PlanView {
    PlanView { steps: Seq::empty(), outcome: Err(reason) }
}

/// The plan of a node with one step and the message it reports afterwards.
pub open spec fn single(step: StepView, message: Seq<char>) -> PlanView {
    PlanView { steps: seq![step], outcome: Ok(message) }
}

/// The step that runs `open` with the given arguments.
pub fn run_open_command(args: Vec<String>) -> (step: Step)
    ensures
        step@ == open_step(texts(args@)),
{
    Step::Run { binary: String::from_str("open"), args }
}

/// The plan of a node that cannot do its work.
pub fn refuse(reason: String) -> (plan: NodePlan)
    ensures
        plan@ == refused(reason@),
{
    let plan = NodePlan { steps: Vec::new(), outcome: Err(reason) };
    assert(plan@.steps =~= Seq::empty());
    plan
}

/// The plan of a node with one step.
pub fn plan_single(step: Step, message: String) -> (plan: NodePlan)
    ensures
        plan@ == single(step@, message@),
{
    let mut steps: Vec<Step> = Vec::new();
    steps.push(step);
    let plan = NodePlan { steps, outcome: Ok(message) };
    assert(plan@.steps =~= seq![step@]);
    plan
}

/// What a start node does: nothing, and it says so.
pub open spec fn start_plan() -> PlanView {
    PlanView { steps: Seq::empty(), outcome: Ok("Start node acknowledged"@) }
}

/// What a delay node does: it waits for the time that its parameter
/// `milliseconds` states.
pub open spec fn delay_plan(params: ParamValue) -> PlanView {
    let stated = match param(params, "milliseconds"@) {
        Some(value) => millis_in(value),
        None => None,
    };
    match stated {
        Some(ms) => single(
            StepView::Sleep { milliseconds: ms },
            "Delayed for "@ + decimal(ms as nat) + " ms"@,
        ),
        None => refused("Delay requires milliseconds"@),
    }
}

/// Plans a delay node.
pub fn delay(params: &ParamValue) -> (plan: NodePlan)
    ensures
        plan@ == delay_plan(*params),
{
    let stated = match get(params, "milliseconds") {
        Some(value) => millis(value),
        None => None,
    };
    match stated {
        Some(ms) => {
            let mut message = String::from_str("Delayed for ");
            push_decimal(&mut message, ms);
            message.append(" ms");
            plan_single(Step::Sleep { milliseconds: ms }, message)
        },
        None => refuse(String::from_str("Delay requires milliseconds")),
    }
}

/// What a node does that opens an application: it opens the application at
/// `appPath` or, without a path, the one named `appName`.
pub open spec fn open_app_plan(params: ParamValue) -> PlanView {
    let target = match text_param(params, "appPath"@) {
        Some(path) => Some(path),
        None => text_param(params, "appName"@),
    };
    match target {
        Some(t) => single(open_step(seq!["-a"@, t]), "Opened app: "@ + t),
        None => refused("Open app requires appName or appPath"@),
    }
}

/// Plans a node that opens an application.
pub fn open_app(params: &ParamValue) -> (plan: NodePlan)
    ensures
        plan@ == open_app_plan(*params),
{
    let app_name = get_text(params, "appName");
    let app_path = get_text(params, "appPath");
    let target = match app_path {
        Some(path) => Some(path),
        None => app_name,
    };
    match target {
        Some(t) => {
            let message = String::from_str("Opened app: ").concat(t.as_str());
            let mut args: Vec<String> = Vec::new();
            args.push(String::from_str("-a"));
            args.push(t);
            assert(texts(args@) =~= seq!["-a"@, t@]);
            plan_single(run_open_command(args), message)
        },
        None => refuse(String::from_str("Open app requires appName or appPath")),
    }
}

/// What a node does that opens the default browser.
pub open spec fn open_browser_plan() -> PlanView {
    single(open_step(seq!["about:blank"@]), "Opened default browser"@)
}

/// Plans a node that opens the default browser.
pub fn open_browser() -> (plan: NodePlan)
    ensures
        plan@ == open_browser_plan(),
{
    let mut args: Vec<String> = Vec::new();
    args.push(String::from_str("about:blank"));
    assert(texts(args@) =~= seq!["about:blank"@]);
    plan_single(run_open_command(args), String::from_str("Opened default browser"))
}

/// The URL that a list entry states: a text with something other than white
/// space in it, without the white space around it.
pub open spec fn url_in(entry: ParamValue) -> Option<Seq<char>> {
    filled(text_in(Some(entry)))
}

/// The URLs of the entries that come before the first entry that states no URL.
pub open spec fn usable_urls(entries: Seq<ParamValue>) -> Seq<Seq<char>>
    decreases entries.len(),
{
    if entries.len() == 0 {
        Seq::empty()
    } else {
        let front = usable_urls(entries.drop_last());
        if front.len() == entries.len() - 1 && url_in(entries.last()) is Some {
            front.push(url_in(entries.last()).unwrap())
        } else {
            front
        }
    }
}

/// What a node does that opens URLs: it opens each URL of its list `urls`
/// in turn. An entry that states no URL fails the node, after the URLs
/// before it have been opened.
pub open spec fn open_urls_plan(params: ParamValue) -> PlanView {
    match list_in(param(params, "urls"@)) {
        None => refused("Open URL requires urls[]"@),
        Some(entries) => if entries.len() == 0 {
            refused("Open URL requires at least one URL"@)
        } else {
            let urls = usable_urls(entries);
            PlanView {
                steps: Seq::new(urls.len(), |i: int| open_step(seq![urls[i]])),
                outcome: if urls.len() == entries.len() {
                    Ok("Opened "@ + decimal(urls.len()) + " URL(s)"@)
                } else {
                    Err("Open URL entries must be non-empty strings"@)
                },
            }
        },
    }
}

/// After an entry that states no URL, no further URL is usable.
pub proof fn lemma_usable_urls_stop(entries: Seq<ParamValue>, k: int)
    requires
        0 <= k <= entries.len(),
        usable_urls(entries.take(k)).len() < k,
    ensures
        usable_urls(entries) == usable_urls(entries.take(k)),
    decreases entries.len() - k,
{
    if k < entries.len() {
        assert(entries.take(k + 1).drop_last() =~= entries.take(k));
        lemma_usable_urls_stop(entries, k + 1);
    } else {
        assert(entries.take(k) =~= entries);
    }
}

/// Plans a node that opens URLs.
pub fn open_urls(params: &ParamValue) -> (plan: NodePlan)
    ensures
        plan@ == open_urls_plan(*params),
{
    let entries = match get(params, "urls") {
        Some(ParamValue::List(entries)) => entries,
        _ => {
            return refuse(String::from_str("Open URL requires urls[]"));
        },
    };
    if entries.len() == 0 {
        return refuse(String::from_str("Open URL requires at least one URL"));
    }
    let mut steps: Vec<Step> = Vec::new();
    let mut opened: usize = 0;
    while opened < entries.len()
        invariant
            opened <= entries.len(),
            entries.len() > 0,
            list_in(param(*params, "urls"@)) == Some(entries@),
            steps.len() == opened,
            usable_urls(entries@.take(opened as int)).len() == opened,
            forall|i: int|
                0 <= i < opened ==> (#[trigger] steps[i])@ == open_step(
                    seq![usable_urls(entries@.take(opened as int))[i]],
                ),
        decreases entries.len() - opened,
    {
        let ghost seen = entries@.take(opened as int);
        let ghost next = entries@.take(opened as int + 1);
        assert(next.drop_last() =~= seen);
        assert(next.last() == entries[opened as int]);
        match filled_text(Some(&entries[opened])) {
            Some(url) => {
                let mut args: Vec<String> = Vec::new();
                let ghost shown = url@;
                args.push(url);
                assert(texts(args@) =~= seq![shown]);
                steps.push(run_open_command(args));
                opened = opened + 1;
            },
            None => {
                proof {
                    lemma_usable_urls_stop(entries@, opened as int + 1);
                }
                let plan = NodePlan {
                    steps,
                    outcome: Err(String::from_str("Open URL entries must be non-empty strings")),
                };
                assert(plan@.steps =~= open_urls_plan(*params).steps);
                return plan;
            },
        }
    }
    assert(entries@.take(opened as int) =~= entries@);
    let mut message = String::from_str("Opened ");
    push_decimal(&mut message, opened as u64);
    message.append(" URL(s)");
    let plan = NodePlan { steps, outcome: Ok(message) };
    assert(plan@.steps =~= open_urls_plan(*params).steps);
    plan
}


/// What a node does that opens a terminal at a path: it opens Terminal at
/// the path that its parameter `path` states, with the home directory in
/// place of a `~` at its start.
pub open spec fn open_terminal_plan(params: ParamValue, home: Option<Seq<char>>) -> PlanView {
    match text_param(params, "path"@) {
        None => refused("Open terminal at path requires path"@),
        Some(path) => match expanded(path, home) {
            Err(reason) => refused(reason),
            Ok(place) => single(
                open_step(seq!["-a"@, "Terminal"@, place]),
                "Opened Terminal at "@ + place,
            ),
        },
    }
}

/// Plans a node that opens a terminal at a path. `home` is the home
/// directory, where it is known.
pub fn open_terminal_at_path(params: &ParamValue, home: Option<&str>) -> (plan: NodePlan)
    ensures
        plan@ == open_terminal_plan(*params, home_view(home)),
{
    let path = match get_text(params, "path") {
        Some(path) => path,
        None => {
            return refuse(String::from_str("Open terminal at path requires path"));
        },
    };
    let place = match expand_tilde(path.as_str(), home) {
        Ok(place) => place,
        Err(reason) => {
            return refuse(reason);
        },
    };
    let message = String::from_str("Opened Terminal at ").concat(place.as_str());
    let mut args: Vec<String> = Vec::new();
    args.push(String::from_str("-a"));
    args.push(String::from_str("Terminal"));
    args.push(place);
    assert(texts(args@) =~= seq!["-a"@, "Terminal"@, place@]);
    plan_single(run_open_command(args), message)
}

/// What a node does that shows a folder: it opens the folder that its
/// parameter `path` states, with the home directory in place of a `~` at
/// its start.
pub open spec fn open_folder_plan(params: ParamValue, home: Option<Seq<char>>) -> PlanView {
    match text_param(params, "path"@) {
        None => refused("Open folder in Finder requires path"@),
        Some(path) => match expanded(path, home) {
            Err(reason) => refused(reason),
            Ok(place) => single(open_step(seq![place]), "Opened folder "@ + place),
        },
    }
}

/// Plans a node that shows a folder. `home` is the home directory, where it
/// is known.
pub fn open_folder_in_finder(params: &ParamValue, home: Option<&str>) -> (plan: NodePlan)
    ensures
        plan@ == open_folder_plan(*params, home_view(home)),
{
    let path = match get_text(params, "path") {
        Some(path) => path,
        None => {
            return refuse(String::from_str("Open folder in Finder requires path"));
        },
    };
    let place = match expand_tilde(path.as_str(), home) {
        Ok(place) => place,
        Err(reason) => {
            return refuse(reason);
        },
    };
    let message = String::from_str("Opened folder ").concat(place.as_str());
    let mut args: Vec<String> = Vec::new();
    args.push(place);
    assert(texts(args@) =~= seq![place@]);
    plan_single(run_open_command(args), message)
}

/// The command line that is typed into the terminal: the command, after a
/// change to the working directory where one is given.
pub open spec fn composed_command(command: Seq<char>, directory: Option<Seq<char>>) -> Seq<char> {
    match directory {
        Some(place) => "cd '"@ + escaped_for_shell(place) + "' && "@ + command,
        None => command,
    }
}

/// The script that makes Terminal run a command line.
pub open spec fn terminal_script(line: Seq<char>) -> Seq<char> {
    "tell application \"Terminal\"\nactivate\ndo script \""@ + escaped_for_applescript(line)
        + "\"\nend tell"@
}

/// The plan that hands a script to `osascript`.
pub open spec fn scripted(script: Seq<char>) -> PlanView {
    single(
        StepView::Run { binary: "osascript"@, args: seq!["-e"@, script] },
        "Opened Terminal and executed command"@,
    )
}

/// What a node does that executes a command: it makes Terminal run the
/// command that its parameter `command` states, in the directory that
/// `workingDirectory` states where that is given.
pub open spec fn execute_command_plan(params: ParamValue, home: Option<Seq<char>>) -> PlanView {
    match text_param(params, "command"@) {
        None => refused("Execute command requires command"@),
        Some(command) => match text_param(params, "workingDirectory"@) {
            None => scripted(terminal_script(composed_command(command, None))),
            Some(directory) => match expanded(directory, home) {
                Err(reason) => refused(reason),
                Ok(place) => scripted(terminal_script(composed_command(command, Some(place)))),
            },
        },
    }
}

/// Plans a node that executes a command. `home` is the home directory, where
/// it is known.
pub fn execute_command(params: &ParamValue, home: Option<&str>) -> (plan: NodePlan)
    ensures
        plan@ == execute_command_plan(*params, home_view(home)),
{
    let command = match get_text(params, "command") {
        Some(command) => command,
        None => {
            return refuse(String::from_str("Execute command requires command"));
        },
    };
    let line = match get_text(params, "workingDirectory") {
        Some(directory) => match expand_tilde(directory.as_str(), home) {
            Ok(place) => {
                let escaped = escape_for_shell(place.as_str());
                String::from_str("cd '").concat(escaped.as_str()).concat("' && ").concat(
                    command.as_str(),
                )
            },
            Err(reason) => {
                return refuse(reason);
            },
        },
        None => command,
    };
    let escaped = escape_for_applescript(line.as_str());
    let script = String::from_str("tell application \"Terminal\"\nactivate\ndo script \"").concat(
        escaped.as_str(),
    ).concat("\"\nend tell");
    let mut args: Vec<String> = Vec::new();
    args.push(String::from_str("-e"));
    args.push(script);
    assert(texts(args@) =~= seq!["-e"@, script@]);
    plan_single(
        Step::Run { binary: String::from_str("osascript"), args },
        String::from_str("Opened Terminal and executed command"),
    )
}

/// Whether the parameter `openMode` asks for the web player.
pub open spec fn wants_web(params: ParamValue) -> bool {
    match text_in(param(params, "openMode"@)) {
        Some(mode) => same_ignoring_ascii_case(trimmed(mode), "web"@),
        None => false,
    }
}

/// What is opened to search Spotify for a playlist.
pub open spec fn spotify_target(query: Seq<char>, web: bool) -> Seq<char> {
    if web {
        "https://open.spotify.com/search/"@ + encoded_for_url(query) + "%20playlist"@
    } else {
        "spotify:search:"@ + encoded_for_url(query) + "%20playlist"@
    }
}

/// What a node does that plays a Spotify playlist: it opens a search for the
/// text of its parameter `query`, in the web player where `openMode` says
/// `web` and in the application otherwise.
pub open spec fn play_spotify_plan(params: ParamValue) -> PlanView {
    match text_param(params, "query"@) {
        None => refused("Play Spotify Playlist requires query"@),
        Some(query) => single(
            open_step(seq![spotify_target(query, wants_web(params))]),
            "Opened Spotify search for playlist query: "@ + query,
        ),
    }
}

/// Plans a node that plays a Spotify playlist.
pub fn play_spotify_playlist(params: &ParamValue) -> (plan: NodePlan)
    ensures
        plan@ == play_spotify_plan(*params),
{
    let query = match get_text(params, "query") {
        Some(query) => query,
        None => {
            return refuse(String::from_str("Play Spotify Playlist requires query"));
        },
    };
    let web = match get(params, "openMode") {
        Some(ParamValue::Text(mode)) => {
            let mode = trim(mode.as_str());
            eq_ignore_ascii_case(mode.as_str(), "web")
        },
        _ => false,
    };
    let encoded = encode_for_url_component(query.as_str());
    let target = if web {
        String::from_str("https://open.spotify.com/search/").concat(encoded.as_str()).concat(
            "%20playlist",
        )
    } else {
        String::from_str("spotify:search:").concat(encoded.as_str()).concat("%20playlist")
    };
    let message = String::from_str("Opened Spotify search for playlist query: ").concat(
        query.as_str(),
    );
    let mut args: Vec<String> = Vec::new();
    args.push(target);
    assert(texts(args@) =~= seq![spotify_target(query@, web)]);
    plan_single(run_open_command(args), message)
}

/// What a node does, by its kind.
pub open spec fn node_plan(node: WorkflowNode, home: Option<Seq<char>>) -> PlanView {
    match node.node_type {
        NodeType::Start => start_plan(),
        NodeType::Delay => delay_plan(node.params),
        NodeType::OpenApp => open_app_plan(node.params),
        NodeType::OpenBrowser => open_browser_plan(),
        NodeType::OpenUrl => open_urls_plan(node.params),
        NodeType::OpenTerminalAtPath => open_terminal_plan(node.params, home),
        NodeType::ExecuteCommand => execute_command_plan(node.params, home),
        NodeType::OpenFolderInFinder => open_folder_plan(node.params, home),
    }
}

/// Plans the work of a node by its kind. `home` is the home directory,
/// where it is known. A node whose parameters are missing or malformed is
/// refused: its plan has no steps and reports why.
pub fn execute_node(node: &WorkflowNode, home: Option<&str>) -> (plan: NodePlan)
    ensures
        plan@ == node_plan(*node, home_view(home)),
{
    match node.node_type {
        NodeType::Start => {
            let plan = NodePlan {
                steps: Vec::new(),
                outcome: Ok(String::from_str("Start node acknowledged")),
            };
            assert(plan@.steps =~= Seq::empty());
            plan
        },
        NodeType::Delay => delay(&node.params),
        NodeType::OpenApp => open_app(&node.params),
        NodeType::OpenBrowser => open_browser(),
        NodeType::OpenUrl => open_urls(&node.params),
        NodeType::OpenTerminalAtPath => open_terminal_at_path(&node.params, home),
        NodeType::ExecuteCommand => execute_command(&node.params, home),
        NodeType::OpenFolderInFinder => open_folder_in_finder(&node.params, home),
    }
}

/// What a step that runs a program comes to: nothing to report where the
/// program ended well, and an error where it could not be started or ended
/// badly. A program that a signal ended counts with the exit code -1.
pub open spec fn command_result(binary: Seq<char>, status: CommandStatus) -> Result<(), Seq<char>> {
    match status {
        CommandStatus::NotStarted(reason) => Err("Failed to run "@ + binary + ": "@ + reason@),
        CommandStatus::Exited { success, code } => if success {
            Ok(())
        } else {
            Err(
                binary + " exited with status "@ + signed_decimal(
                    match code {
                        Some(c) => c as int,
                        None => -1,
                    },
                ),
            )
        },
    }
}

/// Judges how an attempt to run a program ended.
pub fn run_command(binary: &str, status: &CommandStatus) -> (r: Result<(), String>)
    ensures
        match r {
            Ok(_) => command_result(binary@, *status) == Ok::<(), Seq<char>>(()),
            Err(reason) => command_result(binary@, *status) == Err::<(), Seq<char>>(reason@),
        },
{
    match status {
        CommandStatus::NotStarted(reason) => Err(
            String::from_str("Failed to run ").concat(binary).concat(": ").concat(reason.as_str()),
        ),
        CommandStatus::Exited { success, code } => {
            if *success {
                Ok(())
            } else {
                let mut message = String::from_str(binary);
                message.append(" exited with status ");
                let shown: i32 = match code {
                    Some(c) => *c,
                    None => -1,
                };
                push_signed_decimal(&mut message, shown);
                Err(message)
            }
        },
    }
}

/// How a node ends once its steps were performed in order up to the first
/// that failed: with the error of that step as its failure, or else with
/// what the plan reports.
pub open spec fn concluded(
    outcome: Result<Seq<char>, Seq<char>>,
    step_error: Option<Seq<char>>,
) -> OutcomeView {
    match step_error {
        Some(e) => OutcomeView::Failed(e),
        None => match outcome {
            Ok(message) => OutcomeView::Succeeded(message),
            Err(reason) => OutcomeView::Failed(reason),
        },
    }
}

/// What follows the step at `index`, given how it ended: a step that failed
/// ends the node with its error, and no later step is performed; a step that
/// succeeded is followed by the next step while one is due, and after the
/// last step the node ends with what the plan reports.
pub open spec fn stepped(plan: PlanView, index: int, result: Result<(), Seq<char>>) -> Option<
    OutcomeView,
> {
    match result {
        Err(e) => Some(OutcomeView::Failed(e)),
        Ok(_) => if index + 1 < plan.steps.len() {
            None
        } else {
            Some(concluded(plan.outcome, None))
        },
    }
}

/// The view of the result of a step.
pub open spec fn step_result_view(result: Result<(), String>) -> Result<(), Seq<char>> {
    match result {
        Ok(_) => Ok(()),
        Err(e) => Err(e@),
    }
}

impl NodePlan {
    /// How the node ended, once its steps were performed in order up to
    /// the first that failed: with the error of that step, or else with
    /// what the plan reports.
    pub fn conclude(self, step_error: Option<String>) -> (outcome: NodeOutcome)
        ensures
            outcome@ == concluded(self@.outcome, text_view(step_error)),
    {
        match step_error {
            Some(e) => NodeOutcome::Failed(e),
            None => match self.outcome {
                Ok(message) => NodeOutcome::Succeeded(message),
                Err(reason) => NodeOutcome::Failed(reason),
            },
        }
    }

    /// Says what follows the step at `index`, given how it ended: the
    /// outcome of the node where the node has ended, and nothing while a
    /// further step is due. The steps are performed in order, each after the
    /// one before it has succeeded.
    pub fn after_step(&self, index: usize, result: Result<(), String>) -> (next: Option<
        NodeOutcome,
    >)
        requires
            index < self.steps.len(),
        ensures
            match next {
                Some(outcome) => stepped(self@, index as int, step_result_view(result)) == Some(
                    outcome@,
                ),
                None => stepped(self@, index as int, step_result_view(result)) is None,
            },
    {
        match result {
            Err(e) => Some(NodeOutcome::Failed(e)),
            Ok(_) => {
                if index + 1 < self.steps.len() {
                    None
                } else {
                    match &self.outcome {
                        Ok(message) => Some(NodeOutcome::Succeeded(message.clone())),
                        Err(reason) => Some(NodeOutcome::Failed(reason.clone())),
                    }
                }
            },
        }
    }
}

} // verus!
