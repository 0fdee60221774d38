use code_cnt::config_reader::{CfgBlock, CfgCommentType, CfgLangEntry, Config, ConfigError};
use code_cnt::registry::{Block, CommentType, LangRegistry, LangSpec, SourceFile};

fn strings(items: &[&str]) -> Vec<String> {
    items.iter().map(|s| s.to_string()).collect()
}

fn c_like(line: &[&str], extensions: &[&str], name: &str) -> CfgLangEntry {
    CfgLangEntry {
        name: Some(name.to_string()),
        extensions: Some(strings(extensions)),
        comments: Some(CfgCommentType {
            line: Some(strings(line)),
            block: Some(CfgBlock {
                open: Some("/*".to_string()),
                close: Some("*/".to_string()),
            }),
        }),
    }
}

fn source(path: &str, text: &str) -> SourceFile {
    SourceFile {
        path: path.to_string(),
        lines: text.lines().map(String::from).collect(),
    }
}

fn report_of(reg: &LangRegistry) -> Vec<(String, usize, u64)> {
    reg.stats_report()
        .into_iter()
        .map(|r| (r.name, r.files, r.loc))
        .collect()
}

#[test]
fn builtins_are_rust_then_c() {
    let reg = LangRegistry::with_builtins_langs("some/dir");
    assert_eq!(
        report_of(&reg),
        vec![("Rust".to_string(), 0, 0), ("C".to_string(), 0, 0)]
    );
    assert_eq!(reg.get_entry_id("rs"), Some(0));
    assert_eq!(reg.get_entry_id("c"), Some(1));
    assert_eq!(reg.get_entry_id("h"), Some(1));
    assert_eq!(reg.get_entry_id("py"), None);
    assert!(reg.conflicts().is_empty());
}

#[test]
fn extension_resolution_is_exact() {
    let reg = LangRegistry::with_builtins_langs(".");
    assert_eq!(reg.language_of("src/a.RS"), None);
    assert_eq!(reg.get_entry_id("RS"), None);
    assert_eq!(reg.get_entry_id("r"), None);
    assert_eq!(reg.get_entry_id("rs "), None);
    assert_eq!(reg.language_of("src/a.rs"), Some(0));
    assert_eq!(reg.language_of("a.tar.h"), Some(1));
}

#[test]
fn extension_comes_from_the_file_name() {
    let reg = LangRegistry::with_builtins_langs(".");
    assert_eq!(reg.language_of("dir.c/Makefile"), None);
    assert_eq!(reg.language_of("src/.c"), None);
    assert_eq!(reg.language_of(".c"), None);
    assert_eq!(reg.language_of("src/x.c"), Some(1));
    assert_eq!(reg.language_of("src/.x.c"), Some(1));
    assert_eq!(reg.language_of("rs"), None);
    assert_eq!(reg.language_of("file."), None);
}

#[test]
fn first_registration_keeps_shared_extension() {
    let cfg = Config {
        dir: "proj".to_string(),
        languages: vec![
            c_like(&["//"], &["c", "h"], "C"),
            c_like(&["//"], &["cpp", "h"], "C++"),
        ],
    };
    let mut reg = LangRegistry::with_config(cfg).unwrap();
    assert_eq!(reg.get_entry_id("h"), Some(0));
    assert_eq!(reg.get_entry_id("cpp"), Some(1));
    assert_eq!(reg.conflicts(), &vec!["h".to_string()]);
    reg.update_stats(&vec![
        source("proj/a.h", "int a;\nint b;\n"),
        source("proj/b.cpp", "int c;\n"),
    ]);
    assert_eq!(
        report_of(&reg),
        vec![("C".to_string(), 1, 2), ("C++".to_string(), 1, 1)]
    );
}

#[test]
fn update_stats_twice_gives_same_stats() {
    let mut reg = LangRegistry::with_builtins_langs("proj");
    let files = vec![
        source("proj/main.rs", "fn main() {}\n// note\n\nlet x = 1; /* c */\n"),
        source("proj/lib.c", "/* a\n b */\nint x;\n"),
        source("proj/readme.md", "# title\ntext\n"),
    ];
    reg.update_stats(&files);
    let first = report_of(&reg);
    assert_eq!(
        first,
        vec![("Rust".to_string(), 1, 2), ("C".to_string(), 1, 1)]
    );
    reg.update_stats(&files);
    assert_eq!(report_of(&reg), first);
}

#[test]
fn update_stats_resets_previous_counts() {
    let mut reg = LangRegistry::with_builtins_langs("proj");
    reg.update_stats(&vec![source("proj/a.rs", "a\nb\nc\n")]);
    assert_eq!(report_of(&reg)[0], ("Rust".to_string(), 1, 3));
    reg.update_stats(&vec![source("proj/b.c", "x\n")]);
    assert_eq!(
        report_of(&reg),
        vec![("Rust".to_string(), 0, 0), ("C".to_string(), 1, 1)]
    );
}

#[test]
fn same_path_counts_as_one_file() {
    let mut reg = LangRegistry::with_builtins_langs("proj");
    reg.update_stats(&vec![
        source("proj/a.rs", "a\n"),
        source("proj/a.rs", "a\n"),
    ]);
    assert_eq!(report_of(&reg)[0], ("Rust".to_string(), 1, 1));
    reg.update_stats(&vec![
        source("proj/a.rs", "a\nb\n"),
        source("proj/a.rs", "a\n"),
    ]);
    assert_eq!(report_of(&reg)[0], ("Rust".to_string(), 1, 2));
}

#[test]
fn recording_files_one_at_a_time_matches_a_scan() {
    let files = vec![
        source("proj/a.rs", "a\n// b\nc\n"),
        source("proj/b.c", "/* x */\ny\n"),
        source("proj/a.rs", "a\n"),
        source("proj/notes.txt", "text\n"),
    ];
    let mut scanned = LangRegistry::with_builtins_langs("proj");
    scanned.update_stats(&files);
    let mut folded = LangRegistry::with_builtins_langs("proj");
    folded.clear_stats();
    for file in &files {
        folded.record_file(file);
    }
    assert_eq!(report_of(&folded), report_of(&scanned));
    assert_eq!(
        report_of(&folded),
        vec![("Rust".to_string(), 1, 2), ("C".to_string(), 1, 1)]
    );
}

#[test]
fn c_file_scenario_counts_one_line() {
    let mut reg = LangRegistry::with_builtins_langs("proj");
    let file = SourceFile {
        path: "proj/a.c".to_string(),
        lines: strings(&["// header", "int x = 1;", "", "// trailing"]),
    };
    reg.update_stats(&vec![file]);
    assert_eq!(report_of(&reg)[1], ("C".to_string(), 1, 1));
}

#[test]
fn closing_line_with_code_counts_once() {
    let mut reg = LangRegistry::with_builtins_langs("proj");
    reg.update_stats(&vec![source("proj/x.c", "/* a\ntext\n*/ code\n")]);
    assert_eq!(report_of(&reg)[1], ("C".to_string(), 1, 1));
}

#[test]
fn config_registry_reads_languages_in_order() {
    let cfg = Config {
        dir: "proj".to_string(),
        languages: vec![
            CfgLangEntry {
                name: Some("Shell".to_string()),
                extensions: Some(strings(&["sh"])),
                comments: Some(CfgCommentType {
                    line: Some(strings(&["#"])),
                    block: None,
                }),
            },
            c_like(&["//"], &["c"], "C"),
        ],
    };
    let mut reg = LangRegistry::with_config(cfg).unwrap();
    reg.update_stats(&vec![
        source("proj/run.sh", "# comment\n  # indented\necho hi /* not a block */\n"),
        source("proj/x.c", "int x; // end\n"),
    ]);
    assert_eq!(
        report_of(&reg),
        vec![("Shell".to_string(), 1, 1), ("C".to_string(), 1, 1)]
    );
}

#[test]
fn config_missing_name_is_rejected() {
    let mut lang = c_like(&["//"], &["c"], "C");
    lang.name = None;
    let cfg = Config {
        dir: ".".to_string(),
        languages: vec![lang],
    };
    assert_eq!(
        LangRegistry::with_config(cfg).unwrap_err(),
        ConfigError::LanguageNameMissing
    );
}

#[test]
fn config_missing_or_empty_extensions_are_rejected() {
    let mut lang = c_like(&["//"], &["c"], "C");
    lang.extensions = None;
    let cfg = Config {
        dir: ".".to_string(),
        languages: vec![lang],
    };
    assert_eq!(
        LangRegistry::with_config(cfg).unwrap_err(),
        ConfigError::ExtensionMissing
    );
    let cfg = Config {
        dir: ".".to_string(),
        languages: vec![c_like(&["//"], &[], "C")],
    };
    assert_eq!(
        LangRegistry::with_config(cfg).unwrap_err(),
        ConfigError::ExtensionMissing
    );
}

#[test]
fn config_missing_comments_is_rejected() {
    let mut lang = c_like(&["//"], &["c"], "C");
    lang.comments = None;
    let cfg = Config {
        dir: ".".to_string(),
        languages: vec![lang],
    };
    assert_eq!(
        LangRegistry::with_config(cfg).unwrap_err(),
        ConfigError::CommentsMissing
    );
}

#[test]
fn config_missing_line_comment_is_rejected() {
    let cfg = Config {
        dir: ".".to_string(),
        languages: vec![c_like(&[], &["c"], "C")],
    };
    assert_eq!(
        LangRegistry::with_config(cfg).unwrap_err(),
        ConfigError::LineCommentMissing
    );
    let comments = CfgCommentType {
        line: None,
        block: None,
    };
    assert_eq!(
        CommentType::try_from(comments).unwrap_err(),
        ConfigError::LineCommentMissing
    );
}

#[test]
fn config_invalid_block_is_rejected() {
    let block = CfgBlock {
        open: Some("".to_string()),
        close: Some("*/".to_string()),
    };
    assert_eq!(
        Block::try_from(block).unwrap_err(),
        ConfigError::InvalidBlockComment
    );
    let block = CfgBlock {
        open: Some("/*".to_string()),
        close: None,
    };
    assert_eq!(
        Block::try_from(block).unwrap_err(),
        ConfigError::InvalidBlockComment
    );
    let mut lang = c_like(&["//"], &["c"], "C");
    lang.comments.as_mut().unwrap().block = Some(CfgBlock {
        open: Some("/*".to_string()),
        close: Some(String::new()),
    });
    let cfg = Config {
        dir: ".".to_string(),
        languages: vec![c_like(&["#"], &["sh"], "Shell"), lang],
    };
    assert_eq!(
        LangRegistry::with_config(cfg).unwrap_err(),
        ConfigError::InvalidBlockComment
    );
}

#[test]
fn config_first_error_wins() {
    let mut no_name = c_like(&["//"], &["c"], "C");
    no_name.name = None;
    let cfg = Config {
        dir: ".".to_string(),
        languages: vec![c_like(&[], &["c"], "C"), no_name],
    };
    assert_eq!(
        LangRegistry::with_config(cfg).unwrap_err(),
        ConfigError::LineCommentMissing
    );
}

#[test]
fn config_without_languages_fails_validation() {
    let cfg = Config {
        dir: ".".to_string(),
        languages: vec![],
    };
    assert_eq!(cfg.validate_languages(), Err(ConfigError::LanguagesMissing));
    let cfg = Config {
        dir: ".".to_string(),
        languages: vec![c_like(&["//"], &["c"], "C")],
    };
    assert_eq!(cfg.validate_languages(), Ok(()));
}

#[test]
fn valid_comment_config_converts() {
    let comments = CfgCommentType {
        line: Some(strings(&["--"])),
        block: Some(CfgBlock {
            open: Some("{-".to_string()),
            close: Some("-}".to_string()),
        }),
    };
    let ct = CommentType::try_from(comments).unwrap();
    assert_eq!(ct.line, strings(&["--"]));
    let block = ct.block.unwrap();
    assert_eq!(block.open, "{-");
    assert_eq!(block.close, "-}");
    let spec = LangSpec::try_from(c_like(&["//"], &["c"], "C")).unwrap();
    assert_eq!(spec.name, "C");
    assert_eq!(spec.extensions, strings(&["c"]));
}

#[test]
fn new_registry_is_empty() {
    let reg = LangRegistry::new();
    assert!(reg.stats_report().is_empty());
    assert_eq!(reg.get_entry_id("rs"), None);
    let reg = LangRegistry::default();
    assert!(reg.stats_report().is_empty());
}
