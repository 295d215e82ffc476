use stacktraceflow::actions::encode_action_log;
use stacktraceflow::actions::parse_action_log;
use stacktraceflow::config::compile_pattern;
use stacktraceflow::config::rpl;
use stacktraceflow::config::Cli;
use stacktraceflow::config::ConfigError;
use stacktraceflow::config::Configuration;
use stacktraceflow::config::FileConfig;
use stacktraceflow::config::SourceCodeInfo;
use stacktraceflow::data::parse_token;
use stacktraceflow::data::Action;
use stacktraceflow::data::Record;
use stacktraceflow::init::read_stacktraceflow_lines;
use stacktraceflow::init::StackTraceFlowParser;
use stacktraceflow::tree::VisibleTree;

fn rec(function: &str, file: &str, line: usize) -> Record {
    Record { function: function.to_string(), file: file.to_string(), line }
}

fn plain_cli() -> Cli {
    Cli {
        config: None,
        file: None,
        dir: None,
        editor: None,
        depth: None,
        max_size: None,
        only: Vec::new(),
    }
}

#[test]
fn parse_token_reads_the_concrete_shape() {
    let r = parse_token("a@f:1:0: 1:0").unwrap();
    assert!(r == rec("a", "f", 1));
}

#[test]
fn parse_token_reads_spaced_names() {
    let r = parse_token("alpha beta@src/lib.rs:42:7: 50:1").unwrap();
    assert!(r == rec("alpha beta", "src/lib.rs", 42));
}

#[test]
fn parse_token_strips_the_separator_space() {
    // one whitespace character before the `@` separates the name from it
    let r = parse_token("a @f:12:0: 13:4").unwrap();
    assert!(r == rec("a", "f", 12));
    assert_eq!(r.display_string(), "f:12    [a]");
    let r = parse_token("alpha beta @src/lib.rs:42:7: 50:1").unwrap();
    assert!(r == rec("alpha beta", "src/lib.rs", 42));
    let r = parse_token("a\t@f:1:0: 1:0").unwrap();
    assert!(r == rec("a", "f", 1));
    // only the one separator character is consumed
    let r = parse_token("a  @f:1:0: 1:0").unwrap();
    assert!(r == rec("a ", "f", 1));
    // a name consisting only of the separator is no name
    assert!(parse_token(" @f:1:0: 1:0").is_none());
}

#[test]
fn spaced_lines_match_anchored_patterns() {
    let pat = compile_pattern("\\[a\\]$").unwrap();
    let cfg = Configuration {
        config: "stacktraceflow.toml".to_string(),
        file: "trace.stf".to_string(),
        depth: 1,
        max_size: 10_000,
        selected: 1,
        actions: Vec::new(),
        only: vec![pat],
        source_code_info: None,
    };
    let input: Vec<String> = ["+a @f:1:0: 1:0", "-a @f:1:0: 1:0"]
        .iter()
        .map(|s| s.to_string())
        .collect();
    let mut tree = VisibleTree::new();
    read_stacktraceflow_lines(&cfg, &mut tree, &input).unwrap();
    assert_eq!(tree.len(), 1);
    assert!(*tree.borrow_item(0).unwrap() == rec("a", "f", 1));
}

#[test]
fn parse_token_rejects_malformed_tokens() {
    assert!(parse_token("").is_none());
    assert!(parse_token("af:1:0: 1:0").is_none());
    assert!(parse_token("@f:1:0: 1:0").is_none());
    assert!(parse_token("a@f").is_none());
    assert!(parse_token("a@f:x:0: 1:0").is_none());
    assert!(parse_token("a@f:1:0:1:0").is_none());
    assert!(parse_token("a@f:1:0: 1:0:9").is_none());
    assert!(parse_token("a@f:99999999999999999999999999:0: 1:0").is_none());
}

#[test]
fn display_string_renders_file_line_function() {
    let r = rec("crate::work", "src/main.rs", 37);
    assert_eq!(r.display_string(), "src/main.rs:37    [crate::work]");
}

#[test]
fn parser_memoizes_without_changing_the_verdict() {
    let p = StackTraceFlowParser::new();
    let a = p.parse("a@f:1:0: 1:0").unwrap();
    let b = p.parse("a@f:1:0: 1:0").unwrap();
    assert!(a == b);
}

#[test]
fn action_log_round_trips() {
    let log = vec![
        Action::Recursive(rec("a", "f", 1)),
        Action::Delete(rec("some fn", "dir/file.rs", 12)),
        Action::Recursive(rec("z", "g", usize::MAX)),
    ];
    let text = encode_action_log(&log);
    let back = parse_action_log(&text).expect("encoded log must parse");
    assert_eq!(back.len(), 3);
    for (x, y) in log.iter().zip(back.iter()) {
        let same = match (x, y) {
            (Action::Recursive(r1), Action::Recursive(r2)) => r1 == r2,
            (Action::Delete(r1), Action::Delete(r2)) => r1 == r2,
            _ => false,
        };
        assert!(same);
    }
}

#[test]
fn encoded_log_is_line_oriented() {
    let log = vec![Action::Delete(rec("a", "f", 1))];
    let text = encode_action_log(&log);
    assert_eq!(text, "delete a@f:1\n");
}

#[test]
fn action_log_escapes_delimiters() {
    // fields may hold the format's own delimiters, trailing separator
    // whitespace, backslashes, even line breaks; the escaping keeps the
    // encoding injective
    let tricky = vec![
        Action::Delete(rec("a ", "f", 1)),
        Action::Recursive(rec("name@odd", "dir:file", 2)),
        Action::Delete(rec("back\\slash", "line\nbreak", 3)),
    ];
    let text = encode_action_log(&tricky);
    let back = parse_action_log(&text).expect("escaped log must parse");
    assert_eq!(back.len(), 3);
    for (x, y) in tricky.iter().zip(back.iter()) {
        let same = match (x, y) {
            (Action::Recursive(r1), Action::Recursive(r2)) => r1 == r2,
            (Action::Delete(r1), Action::Delete(r2)) => r1 == r2,
            _ => false,
        };
        assert!(same);
    }
}

#[test]
fn parser_produced_records_survive_the_log() {
    // a token with two spaces before `@` parses to a function name with a
    // trailing space; an edit on that record must still apply after a
    // save/reload of the log
    let input: Vec<String> = ["+a  @f:1:0: 1:0", "-a  @f:1:0: 1:0"]
        .iter()
        .map(|s| s.to_string())
        .collect();
    let cfg = Configuration {
        config: "stacktraceflow.toml".to_string(),
        file: "trace.stf".to_string(),
        depth: 10,
        max_size: 10_000,
        selected: 1,
        actions: Vec::new(),
        only: Vec::new(),
        source_code_info: None,
    };
    let mut direct = VisibleTree::new();
    read_stacktraceflow_lines(&cfg, &mut direct, &input).unwrap();
    let record = direct.borrow_item(0).unwrap().clone();
    assert!(record == rec("a ", "f", 1));
    let log = vec![Action::Recursive(record)];
    stacktraceflow::actions::replay_actions(&log, &mut direct);
    assert_eq!(direct.len(), 0);

    let decoded = parse_action_log(&encode_action_log(&log)).unwrap();
    let mut via_text = VisibleTree::new();
    read_stacktraceflow_lines(&cfg, &mut via_text, &input).unwrap();
    stacktraceflow::actions::replay_actions(&decoded, &mut via_text);
    assert_eq!(via_text.len(), 0);
}

#[test]
fn action_log_rejects_garbage() {
    assert!(parse_action_log("garbage\n").is_none());
    assert!(parse_action_log("delete a@f:1").is_none(), "missing line break");
    assert!(parse_action_log("recursive nottoken\n").is_none());
    assert!(parse_action_log("delete a@f:12x\n").is_none(), "bad digits");
    assert!(parse_action_log("delete a\\q@f:1\n").is_none(), "bad escape pair");
    assert!(parse_action_log("delete a@b@f:1\n").is_none(), "bare delimiter");
    assert!(parse_action_log("").is_some(), "the empty log is a log");
    assert_eq!(parse_action_log("").unwrap().len(), 0);
}

#[test]
fn replayed_log_round_trips_through_text() {
    let input: Vec<String> = ["+a@f:1:0: 1:0", "+b@f:2:0: 2:0", "-b@f:2:0: 2:0", "-a@f:1:0: 1:0"]
        .iter()
        .map(|s| s.to_string())
        .collect();
    let cfg = Configuration {
        config: "stacktraceflow.toml".to_string(),
        file: "trace.stf".to_string(),
        depth: 10,
        max_size: 10_000,
        selected: 1,
        actions: Vec::new(),
        only: Vec::new(),
        source_code_info: None,
    };
    let log = vec![Action::Recursive(rec("b", "f", 2))];

    let mut direct = VisibleTree::new();
    read_stacktraceflow_lines(&cfg, &mut direct, &input).unwrap();
    stacktraceflow::actions::replay_actions(&log, &mut direct);

    let text = encode_action_log(&log);
    let decoded = parse_action_log(&text).unwrap();
    let mut via_text = VisibleTree::new();
    read_stacktraceflow_lines(&cfg, &mut via_text, &input).unwrap();
    stacktraceflow::actions::replay_actions(&decoded, &mut via_text);

    assert_eq!(direct.len(), via_text.len());
    for i in 0..direct.len() {
        assert!(direct.borrow_item(i).unwrap() == via_text.borrow_item(i).unwrap());
        assert_eq!(direct.depth_of(i), via_text.depth_of(i));
    }
}

#[test]
fn pattern_mode_keeps_only_matching_paths() {
    // pattern matches only `c`'s rendered form; its ancestors are
    // backfilled so the path root..c stays connected
    let pat = compile_pattern("f:3").unwrap();
    let cfg = Configuration {
        config: "stacktraceflow.toml".to_string(),
        file: "trace.stf".to_string(),
        depth: 3,
        max_size: 10_000,
        selected: 1,
        actions: Vec::new(),
        only: vec![pat],
        source_code_info: None,
    };
    let input: Vec<String> = [
        "+a@f:1:0: 1:0",
        "+b@f:2:0: 2:0",
        "+c@f:3:0: 3:0",
        "-c@f:3:0: 3:0",
        "-b@f:2:0: 2:0",
        "+d@f:4:0: 4:0",
        "-d@f:4:0: 4:0",
        "-a@f:1:0: 1:0",
    ]
        .iter()
        .map(|s| s.to_string())
        .collect();
    let mut tree = VisibleTree::new();
    read_stacktraceflow_lines(&cfg, &mut tree, &input).unwrap();
    // a and b are backfilled beneath c; d has no matched frame within its
    // lookback window, so it stays invisible
    assert_eq!(tree.len(), 3);
    assert!(*tree.borrow_item(0).unwrap() == rec("a", "f", 1));
    assert!(*tree.borrow_item(1).unwrap() == rec("b", "f", 2));
    assert!(*tree.borrow_item(2).unwrap() == rec("c", "f", 3));
    assert_eq!(tree.item_parent(2), Some(1));
    assert_eq!(tree.item_parent(1), Some(0));
}

#[test]
fn pattern_mode_materializes_descendants_in_window() {
    // `a` matches; its child is within the lookback window of 1
    let pat = compile_pattern("\\[a\\]$").unwrap();
    let cfg = Configuration {
        config: "stacktraceflow.toml".to_string(),
        file: "trace.stf".to_string(),
        depth: 1,
        max_size: 10_000,
        selected: 1,
        actions: Vec::new(),
        only: vec![pat],
        source_code_info: None,
    };
    let input: Vec<String> = [
        "+a@f:1:0: 1:0",
        "+b@f:2:0: 2:0",
        "+c@f:3:0: 3:0",
        "-c@f:3:0: 3:0",
        "-b@f:2:0: 2:0",
        "-a@f:1:0: 1:0",
    ]
        .iter()
        .map(|s| s.to_string())
        .collect();
    let mut tree = VisibleTree::new();
    read_stacktraceflow_lines(&cfg, &mut tree, &input).unwrap();
    // a matches; b is one level beneath the match; c is two levels away
    assert_eq!(tree.len(), 2);
    assert!(*tree.borrow_item(0).unwrap() == rec("a", "f", 1));
    assert!(*tree.borrow_item(1).unwrap() == rec("b", "f", 2));
}

#[test]
fn pattern_mode_without_matches_builds_nothing() {
    let pat = compile_pattern("zzz").unwrap();
    let cfg = Configuration {
        config: "stacktraceflow.toml".to_string(),
        file: "trace.stf".to_string(),
        depth: 3,
        max_size: 10_000,
        selected: 1,
        actions: Vec::new(),
        only: vec![pat],
        source_code_info: None,
    };
    let input: Vec<String> = ["+a@f:1:0: 1:0", "-a@f:1:0: 1:0"]
        .iter()
        .map(|s| s.to_string())
        .collect();
    let mut tree = VisibleTree::new();
    read_stacktraceflow_lines(&cfg, &mut tree, &input).unwrap();
    assert_eq!(tree.len(), 0);
}

#[test]
fn invalid_pattern_is_refused() {
    assert!(compile_pattern("[").is_none());
    assert!(compile_pattern("f:1").is_some());
}

#[test]
fn resolve_defaults_without_patterns() {
    let mut args = plain_cli();
    args.file = Some("trace.stf".to_string());
    let c = Configuration::resolve(args, FileConfig::new(), "p.toml".to_string()).unwrap();
    assert_eq!(c.depth, 10);
    assert_eq!(c.max_size, 10_000);
    assert_eq!(c.selected, 1);
    assert_eq!(c.file, "trace.stf");
    assert_eq!(c.config, "p.toml");
    assert_eq!(c.actions.len(), 0);
    assert_eq!(c.only.len(), 0);
    assert!(c.source_code_info.is_none());
}

#[test]
fn resolve_defaults_with_patterns() {
    let mut args = plain_cli();
    args.file = Some("trace.stf".to_string());
    args.only = vec!["x".to_string()];
    let c = Configuration::resolve(args, FileConfig::new(), "p.toml".to_string()).unwrap();
    assert_eq!(c.depth, 3);
    assert_eq!(c.only.len(), 1);
    assert_eq!(c.only[0].source(), "x");
}

#[test]
fn resolve_prefers_command_line_over_file() {
    let mut args = plain_cli();
    args.file = Some("cli.stf".to_string());
    args.depth = Some(7);
    args.only = vec!["cli".to_string()];
    let mut file = FileConfig::new();
    file.file = Some("file.stf".to_string());
    file.depth = Some(2);
    file.max_size = Some(5);
    file.selected = Some(3);
    file.only = Some(vec!["fromfile".to_string()]);
    let c = Configuration::resolve(args, file, "p.toml".to_string()).unwrap();
    assert_eq!(c.file, "cli.stf");
    assert_eq!(c.depth, 7);
    assert_eq!(c.max_size, 5);
    assert_eq!(c.selected, 3);
    // file patterns come first, command line patterns after
    assert_eq!(c.only.len(), 2);
    assert_eq!(c.only[0].source(), "fromfile");
    assert_eq!(c.only[1].source(), "cli");
}

#[test]
fn resolve_requires_a_file() {
    let e = Configuration::resolve(plain_cli(), FileConfig::new(), "p.toml".to_string())
        .unwrap_err();
    assert!(matches!(e, ConfigError::MissingFile));
}

#[test]
fn resolve_reports_the_bad_pattern() {
    let mut args = plain_cli();
    args.file = Some("trace.stf".to_string());
    args.only = vec!["ok".to_string(), "[".to_string()];
    let e = Configuration::resolve(args, FileConfig::new(), "p.toml".to_string()).unwrap_err();
    match e {
        ConfigError::PatternCompile { pattern } => assert_eq!(pattern, "["),
        _ => panic!("expected a pattern error"),
    }
}

#[test]
fn resolve_requires_editor_and_dir_together() {
    let mut args = plain_cli();
    args.file = Some("trace.stf".to_string());
    args.dir = Some("src".to_string());
    let e = Configuration::resolve(args, FileConfig::new(), "p.toml".to_string()).unwrap_err();
    assert!(matches!(e, ConfigError::DirWithoutEditor));

    let mut args = plain_cli();
    args.file = Some("trace.stf".to_string());
    args.editor = Some("vi %F".to_string());
    let e = Configuration::resolve(args, FileConfig::new(), "p.toml".to_string()).unwrap_err();
    assert!(matches!(e, ConfigError::EditorWithoutDir));
}

#[test]
fn resolve_combines_editor_settings() {
    let mut args = plain_cli();
    args.file = Some("trace.stf".to_string());
    args.dir = Some("src".to_string());
    let mut file = FileConfig::new();
    file.editor = Some("vi +%L %F".to_string());
    let c = Configuration::resolve(args, file, "p.toml".to_string()).unwrap();
    let sci = c.source_code_info.unwrap();
    assert_eq!(sci.dir, "src");
    assert_eq!(sci.editor, "vi +%L %F");
}

#[test]
fn config_path_defaults() {
    let args = plain_cli();
    assert_eq!(Configuration::config_path(&args), "stacktraceflow.toml");
    let mut args = plain_cli();
    args.config = Some("other.toml".to_string());
    assert_eq!(Configuration::config_path(&args), "other.toml");
}

#[test]
fn to_file_config_keeps_everything() {
    let pat = compile_pattern("f:1").unwrap();
    let c = Configuration {
        config: "p.toml".to_string(),
        file: "trace.stf".to_string(),
        depth: 4,
        max_size: 9,
        selected: 2,
        actions: vec![Action::Delete(rec("a", "f", 1))],
        only: vec![pat],
        source_code_info: Some(SourceCodeInfo {
            dir: "src".to_string(),
            editor: "vi %F".to_string(),
        }),
    };
    let f = c.to_file_config(5);
    assert_eq!(f.file.as_deref(), Some("trace.stf"));
    assert_eq!(f.dir.as_deref(), Some("src"));
    assert_eq!(f.editor.as_deref(), Some("vi %F"));
    assert_eq!(f.depth, Some(4));
    assert_eq!(f.max_size, Some(9));
    assert_eq!(f.selected, Some(5));
    assert_eq!(f.actions.as_ref().map(|a| a.len()), Some(1));
    assert_eq!(f.only, Some(vec!["f:1".to_string()]));
}

#[test]
fn to_file_config_drops_empty_lists() {
    let c = Configuration {
        config: "p.toml".to_string(),
        file: "trace.stf".to_string(),
        depth: 4,
        max_size: 9,
        selected: 2,
        actions: Vec::new(),
        only: Vec::new(),
        source_code_info: None,
    };
    let f = c.to_file_config(0);
    assert!(f.actions.is_none());
    assert!(f.only.is_none());
    assert!(f.dir.is_none());
    assert!(f.editor.is_none());
}

#[test]
fn add_action_appends_to_the_log() {
    let mut c = Configuration {
        config: "p.toml".to_string(),
        file: "trace.stf".to_string(),
        depth: 4,
        max_size: 9,
        selected: 2,
        actions: Vec::new(),
        only: Vec::new(),
        source_code_info: None,
    };
    stacktraceflow::config::add_action(&mut c, Action::Delete(rec("a", "f", 1)));
    stacktraceflow::config::add_action(&mut c, Action::Recursive(rec("b", "f", 2)));
    assert_eq!(c.actions.len(), 2);
    assert!(matches!(&c.actions[1], Action::Recursive(r) if *r == rec("b", "f", 2)));
}

#[test]
fn rpl_takes_the_value_and_leaves_the_default() {
    let mut s = "hello".to_string();
    let taken = rpl(&mut s);
    assert_eq!(taken, "hello");
    assert_eq!(s, "");
    let mut n: usize = 7;
    assert_eq!(rpl(&mut n), 7);
    assert_eq!(n, 0);
}

#[test]
fn repeated_lines_hit_the_cache() {
    // the same frame recurs many times; verdicts must stay consistent
    let pat = compile_pattern("\\[leaf\\]$").unwrap();
    let cfg = Configuration {
        config: "stacktraceflow.toml".to_string(),
        file: "trace.stf".to_string(),
        depth: 1,
        max_size: 10_000,
        selected: 1,
        actions: Vec::new(),
        only: vec![pat],
        source_code_info: None,
    };
    let mut raw: Vec<String> = Vec::new();
    for _ in 0..10 {
        raw.push("+leaf@f:5:0: 5:0".to_string());
        raw.push("-leaf@f:5:0: 5:0".to_string());
    }
    let mut tree = VisibleTree::new();
    read_stacktraceflow_lines(&cfg, &mut tree, &raw).unwrap();
    assert_eq!(tree.len(), 10);
    for i in 0..10 {
        assert!(*tree.borrow_item(i).unwrap() == rec("leaf", "f", 5));
        assert_eq!(tree.depth_of(i), if i == 0 { 0 } else { 1 });
    }
}

#[test]
fn lookback_window_of_two_reaches_grandchildren() {
    let pat = compile_pattern("\\[a\\]$").unwrap();
    let cfg = Configuration {
        config: "stacktraceflow.toml".to_string(),
        file: "trace.stf".to_string(),
        depth: 2,
        max_size: 10_000,
        selected: 1,
        actions: Vec::new(),
        only: vec![pat],
        source_code_info: None,
    };
    let input: Vec<String> = [
        "+a@f:1:0: 1:0",
        "+b@f:2:0: 2:0",
        "+c@f:3:0: 3:0",
        "+d@f:4:0: 4:0",
        "-d@f:4:0: 4:0",
        "-c@f:3:0: 3:0",
        "-b@f:2:0: 2:0",
        "-a@f:1:0: 1:0",
    ]
        .iter()
        .map(|s| s.to_string())
        .collect();
    let mut tree = VisibleTree::new();
    read_stacktraceflow_lines(&cfg, &mut tree, &input).unwrap();
    // a matches; b and c lie within two levels of it, d lies three below
    assert_eq!(tree.len(), 3);
    assert!(*tree.borrow_item(2).unwrap() == rec("c", "f", 3));
}

#[test]
fn tokens_may_hold_wide_characters() {
    let r = parse_token("caf\u{e9}::r\u{e9}sum\u{e9}@\u{fc}ber.rs:7:0: 9:0").unwrap();
    assert!(r == rec("caf\u{e9}::r\u{e9}sum\u{e9}", "\u{fc}ber.rs", 7));
    assert_eq!(r.display_string(), "\u{fc}ber.rs:7    [caf\u{e9}::r\u{e9}sum\u{e9}]");
    let log = vec![Action::Recursive(r)];
    let text = encode_action_log(&log);
    let back = parse_action_log(&text).unwrap();
    assert!(matches!(&back[0], Action::Recursive(x) if *x == rec("caf\u{e9}::r\u{e9}sum\u{e9}", "\u{fc}ber.rs", 7)));
}
