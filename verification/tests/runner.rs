use quicktools::models::{
    CommandStatus, NodeOutcome, NodePlan, NodeType, ParamNumber, ParamValue, Step, WorkflowNode,
};
use quicktools::runner::{
    delay, encode_for_url_component, escape_for_applescript, escape_for_shell, execute_command,
    execute_node, expand_tilde, open_app, open_browser, open_folder_in_finder,
    open_terminal_at_path, open_urls, play_spotify_playlist, run_command, run_open_command,
};
use quicktools::scheduler::node_result;

fn record(entries: Vec<(&str, ParamValue)>) -> ParamValue {
    ParamValue::Record(entries.into_iter().map(|(k, v)| (k.to_string(), v)).collect())
}

fn text(s: &str) -> ParamValue {
    ParamValue::Text(s.to_string())
}

fn open(args: &[&str]) -> Step {
    Step::Run { binary: "open".to_string(), args: args.iter().map(|a| a.to_string()).collect() }
}

fn refused(reason: &str) -> NodePlan {
    NodePlan { steps: vec![], outcome: Err(reason.to_string()) }
}

fn one(step: Step, message: &str) -> NodePlan {
    NodePlan { steps: vec![step], outcome: Ok(message.to_string()) }
}

#[test]
fn delay_reads_a_numeric_text() {
    let plan = delay(&record(vec![("milliseconds", text("250"))]));
    assert_eq!(plan, one(Step::Sleep { milliseconds: 250 }, "Delayed for 250 ms"));
}

#[test]
fn delay_reads_numbers() {
    let of = |n: ParamNumber| delay(&record(vec![("milliseconds", ParamValue::Number(n))]));
    assert_eq!(of(ParamNumber::Unsigned(0)), one(Step::Sleep { milliseconds: 0 }, "Delayed for 0 ms"));
    assert_eq!(
        of(ParamNumber::Unsigned(u64::MAX)),
        one(Step::Sleep { milliseconds: u64::MAX }, "Delayed for 18446744073709551615 ms")
    );
    assert_eq!(of(ParamNumber::Signed(7)), one(Step::Sleep { milliseconds: 7 }, "Delayed for 7 ms"));
    assert_eq!(of(ParamNumber::Signed(-1)), refused("Delay requires milliseconds"));
    assert_eq!(
        of(ParamNumber::Fraction(Some(3))),
        one(Step::Sleep { milliseconds: 3 }, "Delayed for 3 ms")
    );
    assert_eq!(of(ParamNumber::Fraction(None)), refused("Delay requires milliseconds"));
}

#[test]
fn delay_trims_its_text_and_refuses_what_is_no_number() {
    let of = |s: &str| delay(&record(vec![("milliseconds", text(s))]));
    assert_eq!(of("  40\n"), one(Step::Sleep { milliseconds: 40 }, "Delayed for 40 ms"));
    assert_eq!(of("+5"), one(Step::Sleep { milliseconds: 5 }, "Delayed for 5 ms"));
    assert_eq!(of("007"), one(Step::Sleep { milliseconds: 7 }, "Delayed for 7 ms"));
    for bad in ["", "  ", "-5", "1.5", "12ms", "1 2", "18446744073709551616", "+"] {
        assert_eq!(of(bad), refused("Delay requires milliseconds"));
    }
}

#[test]
fn delay_without_its_parameter_is_refused() {
    assert_eq!(delay(&ParamValue::Null), refused("Delay requires milliseconds"));
    assert_eq!(delay(&record(vec![])), refused("Delay requires milliseconds"));
    assert_eq!(
        delay(&record(vec![("milliseconds", ParamValue::Bool(true))])),
        refused("Delay requires milliseconds")
    );
    assert_eq!(
        delay(&ParamValue::List(vec![text("250")])),
        refused("Delay requires milliseconds")
    );
}

#[test]
fn last_entry_of_a_name_counts() {
    let plan = delay(&record(vec![("milliseconds", text("1")), ("milliseconds", text("2"))]));
    assert_eq!(plan, one(Step::Sleep { milliseconds: 2 }, "Delayed for 2 ms"));
}

#[test]
fn open_urls_with_an_empty_list_is_refused() {
    let plan = open_urls(&record(vec![("urls", ParamValue::List(vec![]))]));
    assert_eq!(plan, refused("Open URL requires at least one URL"));
}

#[test]
fn open_url_node_with_an_empty_list_fails_once() {
    let node = WorkflowNode {
        id: "n1".to_string(),
        node_type: NodeType::OpenUrl,
        params: record(vec![("urls", ParamValue::List(vec![]))]),
    };
    let plan = execute_node(&node, Some("/Users/me"));
    assert!(plan.steps.is_empty());
    let outcome = plan.conclude(None);
    assert_eq!(outcome, NodeOutcome::Failed("Open URL requires at least one URL".to_string()));
    let result = node_result(&node, &outcome).unwrap();
    assert!(!result.success);
    assert_eq!(result.node_id, "n1");
    assert_eq!(result.node_type, NodeType::OpenUrl);
    assert_eq!(result.message, "Node n1 failed: Open URL requires at least one URL");
    assert!(result.message.contains("requires at least one URL"));
}

#[test]
fn open_urls_without_a_list_is_refused() {
    assert_eq!(open_urls(&ParamValue::Null), refused("Open URL requires urls[]"));
    assert_eq!(
        open_urls(&record(vec![("urls", text("https://a.example"))])),
        refused("Open URL requires urls[]")
    );
}

#[test]
fn open_urls_opens_each_url_in_turn() {
    let plan = open_urls(&record(vec![(
        "urls",
        ParamValue::List(vec![text(" https://a.example "), text("https://b.example")]),
    )]));
    assert_eq!(
        plan,
        NodePlan {
            steps: vec![open(&["https://a.example"]), open(&["https://b.example"])],
            outcome: Ok("Opened 2 URL(s)".to_string()),
        }
    );
}

#[test]
fn open_urls_stops_at_the_first_entry_that_is_no_url() {
    let plan = open_urls(&record(vec![(
        "urls",
        ParamValue::List(vec![
            text("https://a.example"),
            text("   "),
            text("https://c.example"),
        ]),
    )]));
    assert_eq!(
        plan,
        NodePlan {
            steps: vec![open(&["https://a.example"])],
            outcome: Err("Open URL entries must be non-empty strings".to_string()),
        }
    );
    let plan = open_urls(&record(vec![(
        "urls",
        ParamValue::List(vec![ParamValue::Number(ParamNumber::Unsigned(1))]),
    )]));
    assert_eq!(plan, refused("Open URL entries must be non-empty strings"));
}

#[test]
fn open_app_prefers_the_path() {
    let plan = open_app(&record(vec![("appName", text("Notes")), ("appPath", text(" /Apps/N.app "))]));
    assert_eq!(plan, one(open(&["-a", "/Apps/N.app"]), "Opened app: /Apps/N.app"));
    let plan = open_app(&record(vec![("appName", text(" Notes ")), ("appPath", text("  "))]));
    assert_eq!(plan, one(open(&["-a", "Notes"]), "Opened app: Notes"));
    assert_eq!(open_app(&record(vec![])), refused("Open app requires appName or appPath"));
    assert_eq!(
        open_app(&record(vec![("appName", ParamValue::Bool(true))])),
        refused("Open app requires appName or appPath")
    );
}

#[test]
fn open_browser_opens_a_blank_page() {
    assert_eq!(open_browser(), one(open(&["about:blank"]), "Opened default browser"));
    assert_eq!(run_open_command(vec!["x".to_string()]), open(&["x"]));
}

#[test]
fn open_terminal_expands_the_home_directory() {
    let params = record(vec![("path", text(" ~/code "))]);
    assert_eq!(
        open_terminal_at_path(&params, Some("/Users/me")),
        one(open(&["-a", "Terminal", "/Users/me/code"]), "Opened Terminal at /Users/me/code")
    );
    assert_eq!(open_terminal_at_path(&params, None), refused("HOME is not set"));
    assert_eq!(
        open_terminal_at_path(&record(vec![("path", text(" "))]), Some("/Users/me")),
        refused("Open terminal at path requires path")
    );
    assert_eq!(
        open_terminal_at_path(&record(vec![("path", text("/tmp"))]), None),
        one(open(&["-a", "Terminal", "/tmp"]), "Opened Terminal at /tmp")
    );
}

#[test]
fn open_folder_expands_the_home_directory() {
    assert_eq!(
        open_folder_in_finder(&record(vec![("path", text("~"))]), Some("/Users/me")),
        one(open(&["/Users/me"]), "Opened folder /Users/me")
    );
    assert_eq!(
        open_folder_in_finder(&record(vec![("path", text("~"))]), None),
        refused("HOME is not set")
    );
    assert_eq!(
        open_folder_in_finder(&ParamValue::Null, Some("/Users/me")),
        refused("Open folder in Finder requires path")
    );
}

#[test]
fn execute_command_writes_the_script() {
    let plan = execute_command(&record(vec![("command", text(" echo \"hi\" "))]), None);
    let script = "tell application \"Terminal\"\nactivate\ndo script \"echo \\\"hi\\\"\"\nend tell";
    assert_eq!(
        plan,
        one(
            Step::Run {
                binary: "osascript".to_string(),
                args: vec!["-e".to_string(), script.to_string()],
            },
            "Opened Terminal and executed command"
        )
    );
}

#[test]
fn execute_command_changes_to_the_working_directory() {
    let params =
        record(vec![("command", text("ls -la")), ("workingDirectory", text("~/My Project's"))]);
    let plan = execute_command(&params, Some("/Users/me"));
    let line = "cd '/Users/me/My Project'\\''s' && ls -la";
    let script = format!(
        "tell application \"Terminal\"\nactivate\ndo script \"{}\"\nend tell",
        line.replace('\\', "\\\\").replace('"', "\\\"")
    );
    assert!(script.contains("cd '/Users/me/My Project'\\\\''s' && ls -la"));
    assert_eq!(
        plan,
        one(
            Step::Run { binary: "osascript".to_string(), args: vec!["-e".to_string(), script] },
            "Opened Terminal and executed command"
        )
    );
    assert_eq!(execute_command(&params, None), refused("HOME is not set"));
    assert_eq!(
        execute_command(&record(vec![("workingDirectory", text("/tmp"))]), None),
        refused("Execute command requires command")
    );
}

#[test]
fn play_spotify_playlist_searches_in_the_app_or_on_the_web() {
    let app = play_spotify_playlist(&record(vec![("query", text(" lo-fi beats "))]));
    assert_eq!(
        app,
        one(
            open(&["spotify:search:lo-fi%20beats%20playlist"]),
            "Opened Spotify search for playlist query: lo-fi beats"
        )
    );
    let web = play_spotify_playlist(&record(vec![
        ("query", text("caf\u{e9}")),
        ("openMode", text(" WeB ")),
    ]));
    assert_eq!(
        web,
        one(
            open(&["https://open.spotify.com/search/caf%C3%A9%20playlist"]),
            "Opened Spotify search for playlist query: caf\u{e9}"
        )
    );
    let other = play_spotify_playlist(&record(vec![("query", text("x")), ("openMode", text("tv"))]));
    assert_eq!(other.steps, vec![open(&["spotify:search:x%20playlist"])]);
    assert_eq!(
        play_spotify_playlist(&record(vec![("query", text(" "))])),
        refused("Play Spotify Playlist requires query")
    );
}

#[test]
fn start_node_is_acknowledged() {
    let node =
        WorkflowNode { id: "s".to_string(), node_type: NodeType::Start, params: ParamValue::Null };
    let plan = execute_node(&node, None);
    assert_eq!(plan, NodePlan { steps: vec![], outcome: Ok("Start node acknowledged".to_string()) });
    assert_eq!(plan.conclude(None), NodeOutcome::Succeeded("Start node acknowledged".to_string()));
}

#[test]
fn execute_node_plans_by_kind() {
    let of = |node_type: NodeType, params: ParamValue| {
        execute_node(&WorkflowNode { id: "n".to_string(), node_type, params }, Some("/h"))
    };
    assert_eq!(
        of(NodeType::Delay, record(vec![("milliseconds", text("250"))])),
        one(Step::Sleep { milliseconds: 250 }, "Delayed for 250 ms")
    );
    assert_eq!(
        of(NodeType::OpenApp, record(vec![("appName", text("Notes"))])),
        one(open(&["-a", "Notes"]), "Opened app: Notes")
    );
    assert_eq!(of(NodeType::OpenBrowser, ParamValue::Null), open_browser());
    assert_eq!(of(NodeType::OpenUrl, ParamValue::Null), refused("Open URL requires urls[]"));
    assert_eq!(
        of(NodeType::OpenTerminalAtPath, record(vec![("path", text("~/x"))])),
        one(open(&["-a", "Terminal", "/h/x"]), "Opened Terminal at /h/x")
    );
    assert_eq!(
        of(NodeType::ExecuteCommand, ParamValue::Null),
        refused("Execute command requires command")
    );
    assert_eq!(
        of(NodeType::OpenFolderInFinder, record(vec![("path", text("/var"))])),
        one(open(&["/var"]), "Opened folder /var")
    );
}

#[test]
fn conclude_reports_the_first_failed_step() {
    let plan = one(open(&["x"]), "Opened folder x");
    assert_eq!(
        plan.conclude(Some("open exited with status 1".to_string())),
        NodeOutcome::Failed("open exited with status 1".to_string())
    );
    let plan = one(open(&["x"]), "Opened folder x");
    assert_eq!(plan.conclude(None), NodeOutcome::Succeeded("Opened folder x".to_string()));
    let plan = NodePlan { steps: vec![open(&["a"])], outcome: Err("later".to_string()) };
    assert_eq!(plan.conclude(None), NodeOutcome::Failed("later".to_string()));
}

#[test]
fn after_step_says_what_follows() {
    let plan = NodePlan {
        steps: vec![open(&["a"]), open(&["b"]), open(&["c"])],
        outcome: Ok("Opened 3 URL(s)".to_string()),
    };
    assert_eq!(plan.after_step(0, Ok(())), None);
    assert_eq!(plan.after_step(1, Ok(())), None);
    assert_eq!(
        plan.after_step(2, Ok(())),
        Some(NodeOutcome::Succeeded("Opened 3 URL(s)".to_string()))
    );
    assert_eq!(
        plan.after_step(0, Err("open exited with status 1".to_string())),
        Some(NodeOutcome::Failed("open exited with status 1".to_string()))
    );
    assert_eq!(
        plan.after_step(2, Err("Failed to run open: gone".to_string())),
        Some(NodeOutcome::Failed("Failed to run open: gone".to_string()))
    );
    let stops = NodePlan {
        steps: vec![open(&["a"])],
        outcome: Err("Open URL entries must be non-empty strings".to_string()),
    };
    assert_eq!(
        stops.after_step(0, Ok(())),
        Some(NodeOutcome::Failed("Open URL entries must be non-empty strings".to_string()))
    );
}

#[test]
fn run_command_judges_the_status() {
    assert_eq!(run_command("open", &CommandStatus::Exited { success: true, code: Some(0) }), Ok(()));
    assert_eq!(
        run_command("open", &CommandStatus::Exited { success: false, code: Some(1) }),
        Err("open exited with status 1".to_string())
    );
    assert_eq!(
        run_command("osascript", &CommandStatus::Exited { success: false, code: None }),
        Err("osascript exited with status -1".to_string())
    );
    assert_eq!(
        run_command("open", &CommandStatus::Exited { success: false, code: Some(i32::MIN) }),
        Err("open exited with status -2147483648".to_string())
    );
    assert_eq!(
        run_command("open", &CommandStatus::Exited { success: false, code: Some(i32::MAX) }),
        Err("open exited with status 2147483647".to_string())
    );
    assert_eq!(
        run_command("open", &CommandStatus::NotStarted("No such file or directory".to_string())),
        Err("Failed to run open: No such file or directory".to_string())
    );
}

#[test]
fn expand_tilde_cases() {
    assert_eq!(expand_tilde("~", Some("/Users/me")), Ok("/Users/me".to_string()));
    assert_eq!(expand_tilde("~/a/b", Some("/Users/me")), Ok("/Users/me/a/b".to_string()));
    assert_eq!(expand_tilde("~/a", Some("/Users/me/")), Ok("/Users/me/a".to_string()));
    assert_eq!(expand_tilde("~/", Some("/Users/me")), Ok("/Users/me/".to_string()));
    assert_eq!(expand_tilde("~//etc", Some("/Users/me")), Ok("/etc".to_string()));
    assert_eq!(expand_tilde("~", None), Err("HOME is not set".to_string()));
    assert_eq!(expand_tilde("~/a", None), Err("HOME is not set".to_string()));
    assert_eq!(expand_tilde("~user/a", None), Ok("~user/a".to_string()));
    assert_eq!(expand_tilde("/tmp/~", None), Ok("/tmp/~".to_string()));
    assert_eq!(expand_tilde("", None), Ok("".to_string()));
}

fn expand_with_std(path: &str, home: &str) -> String {
    if path == "~" {
        return std::path::PathBuf::from(home).display().to_string();
    }
    if let Some(rest) = path.strip_prefix("~/") {
        return std::path::PathBuf::from(home).join(rest).display().to_string();
    }
    std::path::PathBuf::from(path).display().to_string()
}

#[test]
fn expand_tilde_agrees_with_std_paths() {
    for home in ["/Users/me", "/Users/me/", "/", "", "relative/home"] {
        for path in ["~", "~/", "~/a", "~/a/b c", "~//abs", "~x", "/abs", "rel", "", "~/~"] {
            assert_eq!(expand_tilde(path, Some(home)), Ok(expand_with_std(path, home)));
        }
    }
}

#[test]
fn escapes_for_applescript_and_shell() {
    assert_eq!(escape_for_applescript("say \"hi\" \\ bye"), "say \\\"hi\\\" \\\\ bye");
    assert_eq!(escape_for_applescript(""), "");
    assert_eq!(escape_for_applescript("plain"), "plain");
    assert_eq!(escape_for_shell("it's"), "it'\\''s");
    assert_eq!(escape_for_shell("''"), "'\\'''\\''");
    assert_eq!(escape_for_shell("a\"b\\c"), "a\"b\\c");
    for sample in ["", "a", "\\", "\"", "\\\"", "x\\\\y\"\"z", "caf\u{e9} \"\u{1F600}\"", "'q'"] {
        assert_eq!(
            escape_for_applescript(sample),
            sample.replace('\\', "\\\\").replace('"', "\\\"")
        );
        assert_eq!(escape_for_shell(sample), sample.replace("'", "'\\''"));
    }
}

fn encode_with_std(text: &str) -> String {
    let mut encoded = String::new();
    for ch in text.chars() {
        if ch.is_ascii_alphanumeric() || matches!(ch, '-' | '_' | '.' | '~') {
            encoded.push(ch);
        } else if ch.is_ascii_whitespace() {
            encoded.push_str("%20");
        } else {
            let mut buffer = [0u8; 4];
            for byte in ch.encode_utf8(&mut buffer).as_bytes() {
                encoded.push_str(&format!("%{:02X}", byte));
            }
        }
    }
    encoded
}

#[test]
fn encode_for_url_component_cases() {
    assert_eq!(encode_for_url_component("lo-fi beats & caf\u{e9}"), "lo-fi%20beats%20%26%20caf%C3%A9");
    assert_eq!(encode_for_url_component("AZaz09-_.~"), "AZaz09-_.~");
    assert_eq!(encode_for_url_component("a\tb\nc\rd\x0Ce"), "a%20b%20c%20d%20e");
    assert_eq!(encode_for_url_component("\x0B"), "%0B");
    assert_eq!(encode_for_url_component("/?#"), "%2F%3F%23");
    assert_eq!(encode_for_url_component("\u{20AC}"), "%E2%82%AC");
    assert_eq!(encode_for_url_component("\u{1F600}"), "%F0%9F%98%80");
    assert_eq!(encode_for_url_component("\u{7f}\u{80}\u{7ff}\u{800}\u{ffff}"), "%7F%C2%80%DF%BF%E0%A0%80%EF%BF%BF");
    assert_eq!(encode_for_url_component(""), "");
    for sample in ["hello world", "100% sure?", "\u{0}\u{1f}", "\u{10FFFF}", "a+b=c", "\u{a0}x"] {
        assert_eq!(encode_for_url_component(sample), encode_with_std(sample));
    }
}
