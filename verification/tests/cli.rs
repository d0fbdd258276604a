use herdr::cli::{
    git_dir_args, parse_baseline_arg, run_diff, run_view_command, view_help, with_pane_id,
    with_repository, CommandStep, DiffRequest,
};

fn help_lines() -> Vec<String> {
    vec![
        "usage: herdr view <subcommand> [args...]".to_string(),
        String::new(),
        "subcommands:".to_string(),
        "  diff [--baseline <ref>]  Convert the current pane to a diff view".to_string(),
    ]
}

#[test]
fn parse_baseline_arg_extracts_value() {
    let args = vec!["--baseline".into(), "develop".into()];
    assert_eq!(
        parse_baseline_arg(&args).unwrap().as_deref(),
        Some("develop")
    );
}

#[test]
fn parse_baseline_arg_rejects_unknown_flag() {
    let args = vec!["--what".into()];
    assert!(parse_baseline_arg(&args).is_err());
}

#[test]
fn parse_baseline_arg_defaults_to_none() {
    let args: Vec<String> = vec![];
    assert!(parse_baseline_arg(&args).unwrap().is_none());
}

#[test]
fn the_last_baseline_counts() {
    let args: Vec<String> = vec![
        "--baseline".into(),
        "a".into(),
        "--baseline".into(),
        "b".into(),
    ];
    assert_eq!(parse_baseline_arg(&args), Ok(Some("b".to_string())));
}

#[test]
fn a_flag_can_be_a_value() {
    let args: Vec<String> = vec!["--baseline".into(), "--baseline".into()];
    assert_eq!(parse_baseline_arg(&args), Ok(Some("--baseline".to_string())));
}

#[test]
fn baseline_errors_say_what_is_wrong() {
    let args: Vec<String> = vec!["--baseline".into()];
    assert_eq!(
        parse_baseline_arg(&args),
        Err("missing value for --baseline".to_string())
    );
    let args: Vec<String> = vec!["--baseline".into(), "x".into(), "y".into()];
    assert_eq!(
        parse_baseline_arg(&args),
        Err("unknown argument: y".to_string())
    );
}

#[test]
fn view_without_a_subcommand_prints_help() {
    assert_eq!(view_help(), help_lines());
    assert_eq!(
        run_view_command(&[]),
        CommandStep::Exit { stderr: help_lines(), code: 2 }
    );
}

#[test]
fn asking_for_help_is_no_failure() {
    for word in ["help", "--help", "-h"] {
        assert_eq!(
            run_view_command(&[word.to_string(), "more".to_string()]),
            CommandStep::Exit { stderr: help_lines(), code: 0 }
        );
    }
}

#[test]
fn unknown_subcommands_are_named() {
    let mut stderr = vec!["unknown subcommand: tree".to_string()];
    stderr.extend(help_lines());
    assert_eq!(
        run_view_command(&["tree".to_string()]),
        CommandStep::Exit { stderr, code: 2 }
    );
}

#[test]
fn diff_goes_from_arguments_to_request() {
    let args: Vec<String> = vec!["diff".into(), "--baseline".into(), "dev".into()];
    let CommandStep::ReadPaneId { baseline } = run_view_command(&args) else {
        panic!("expected the pane to be looked up");
    };
    let CommandStep::ProbeRepository { baseline, pane_id } =
        with_pane_id(baseline, Some("p7".to_string()), "PANE")
    else {
        panic!("expected the repository to be probed");
    };
    assert_eq!(
        with_repository(baseline, pane_id, "/repo", true),
        CommandStep::Send(DiffRequest {
            id: "cli:view:diff".to_string(),
            pane_id: "p7".to_string(),
            baseline: Some("dev".to_string()),
            scope: None,
        })
    );
}

#[test]
fn diff_complains_in_one_line() {
    assert_eq!(
        run_diff(&["--what".to_string()]),
        CommandStep::Exit { stderr: vec!["unknown argument: --what".to_string()], code: 2 }
    );
    assert_eq!(
        with_pane_id(None, None, "HERDR_PANE"),
        CommandStep::Exit {
            stderr: vec![
                "not running inside a herdr pane (set $HERDR_PANE to opt in manually)".to_string()
            ],
            code: 2
        }
    );
    assert_eq!(
        with_repository(None, "p".to_string(), "/tmp/x", false),
        CommandStep::Exit { stderr: vec!["not a git repository: /tmp/x".to_string()], code: 2 }
    );
}

#[test]
fn repository_probe() {
    assert_eq!(git_dir_args(), vec!["rev-parse", "--git-dir"]);
}
