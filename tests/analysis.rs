use code_cnt::analysis::{count_lines, is_block_comment, is_single_line_comment};
use code_cnt::registry::{Block, CommentType};

/// The lines of `text`, as a line-by-line reader of a file holding it yields them.
fn lines_of(text: &str) -> Vec<String> {
    text.lines().map(String::from).collect()
}

#[test]
fn empty_file() {
    let text = "";
    let comments = CommentType {
        line: vec!["//".to_string()],
        block: Some(Block {
            open: "/*".to_string(),
            close: "*/".to_string(),
        }),
    };
    let res = count_lines(&lines_of(text), &comments);
    assert_eq!(res, 0);
}

#[test]
fn only_comments_and_newlines() {
    let comments = CommentType {
        line: vec!["//".to_string()],
        block: Some(Block {
            open: "/*".to_string(),
            close: "*/".to_string(),
        }),
    };
    let text = r#"//
                //
                // text
                //
                
                
                //
                    
                "#;

    let res = count_lines(&lines_of(text), &comments);
    assert_eq!(res, 0);
}

#[test]
fn single_line_comments_with_code() {
    let comments = CommentType {
        line: vec!["//".to_string()],
        block: Some(Block {
            open: "/*".to_string(),
            close: "*/".to_string(),
        }),
    };
    let text = r#"//
                // text
                //
                // text
                code
                code
                    code
                code
                //

                "#;

    let res = count_lines(&lines_of(text), &comments);
    assert_eq!(res, 4);
}

#[test]
fn single_line_comment_after_code() {
    let comments = CommentType {
        line: vec!["//".to_string()],
        block: Some(Block {
            open: "/*".to_string(),
            close: "*/".to_string(),
        }),
    };
    let text = r#"//
                code
                code

                code // text
                //text 
                "#;

    let res = count_lines(&lines_of(text), &comments);
    assert_eq!(res, 3);
}

#[test]
fn comments_inside_string() {
    let comments = CommentType {
        line: vec!["//".to_string()],
        block: Some(Block {
            open: "/*".to_string(),
            close: "*/".to_string(),
        }),
    };
    let text = r#"
                let s = "/* not a comment */";
                let s = "// not a comment "#;

    let res = count_lines(&lines_of(text), &comments);
    assert_eq!(res, 2);
}

#[test]
fn block_multi_line_no_code() {
    let comments = CommentType {
        line: vec!["//".to_string()],
        block: Some(Block {
            open: "/*".to_string(),
            close: "*/".to_string(),
        }),
    };
    let text = r#"/* text
                   text
                */
                 "#;
    let res = count_lines(&lines_of(text), &comments);
    assert_eq!(res, 0);
}

#[test]
fn block_multi_line_code_after() {
    let comments = CommentType {
        line: vec!["//".to_string()],
        block: Some(Block {
            open: "/*".to_string(),
            close: "*/".to_string(),
        }),
    };
    let text = r#"
                 /* text
                    text
                 */ code
                 "#;
    let res = count_lines(&lines_of(text), &comments);
    assert_eq!(res, 1);
}

#[test]
fn block_comments_multi_line_code_before() {
    let comments = CommentType {
        line: vec!["//".to_string()],
        block: Some(Block {
            open: "/*".to_string(),
            close: "*/".to_string(),
        }),
    };
    let text = r#"
                 code /* text
                         text
                      */
                 "#;
    let res = count_lines(&lines_of(text), &comments);
    assert_eq!(res, 1);
}

#[test]
fn block_comments_single_line_no_code() {
    let comments = CommentType {
        line: vec!["//".to_string()],
        block: Some(Block {
            open: "/*".to_string(),
            close: "*/".to_string(),
        }),
    };
    let text = r#"
                 /* text */
                 "#;
    let res = count_lines(&lines_of(text), &comments);
    assert_eq!(res, 0);
}

#[test]
fn block_comments_single_line_code_before() {
    let comments = CommentType {
        line: vec!["//".to_string()],
        block: Some(Block {
            open: "/*".to_string(),
            close: "*/".to_string(),
        }),
    };
    let text = r#"
                 code /* text */
                 "#;
    let res = count_lines(&lines_of(text), &comments);
    assert_eq!(res, 1);
}

#[test]
fn block_comments_single_line_code_after() {
    let comments = CommentType {
        line: vec!["//".to_string()],
        block: Some(Block {
            open: "/*".to_string(),
            close: "*/".to_string(),
        }),
    };
    let text = r#"
                 /* text */ code
                 "#;
    let res = count_lines(&lines_of(text), &comments);
    assert_eq!(res, 1);
}

#[test]
fn block_comments_single_line_interleaved() {
    let comments = CommentType {
        line: vec!["//".to_string()],
        block: Some(Block {
            open: "/*".to_string(),
            close: "*/".to_string(),
        }),
    };
    let text = r#"
                 code /* a */ code /* b */ code
                 "#;
    let res = count_lines(&lines_of(text), &comments);
    assert_eq!(res, 1);
}

#[test]
fn block_comments_no_end() {
    let comments = CommentType {
        line: vec!["//".to_string()],
        block: Some(Block {
            open: "/*".to_string(),
            close: "*/".to_string(),
        }),
    };
    let text = r#"
                /* text
                    text
                 "#;
    let res = count_lines(&lines_of(text), &comments);
    assert_eq!(res, 0);
}

#[test]
fn mixed_line_and_block_comments() {
    let comments = CommentType {
        line: vec!["//".to_string()],
        block: Some(Block {
            open: "/*".to_string(),
            close: "*/".to_string(),
        }),
    };
    let text = r#"/* text
                   text
                */

                /* text
                    text
                */ code

                code /* text
                         text
                      */ // text

                /* text */

                // text
                code /* text */

                /* text */ code

                code // /* a */ code /* b */ code
                //
                /* text
                   text
                "#;
    let res = count_lines(&lines_of(text), &comments);
    assert_eq!(res, 5);
}

#[test]
fn single_line_comment_c_style() {
    let res = is_single_line_comment(
        "// c style comment",
        &["%".to_string(), "#".to_string(), "//".to_string()],
    );
    assert!(res);
}

#[test]
fn single_line_comment_python() {
    let res = is_single_line_comment(
        "# python comment",
        &["%".to_string(), "#".to_string(), "//".to_string()],
    );
    assert!(res);
}

#[test]
fn single_line_comment_latex() {
    let res = is_single_line_comment(
        "% latex comment",
        &["%".to_string(), "#".to_string(), "//".to_string()],
    );
    assert!(res);
}

#[test]
fn single_line_comment_not_a_comment() {
    let res = is_single_line_comment(
        "! this is not a one-line comment",
        &["%".to_string(), "#".to_string(), "//".to_string()],
    );
    assert!(!res);
}

#[test]
fn block_comment_valid_single_line_c_style_no_code() {
    let mut is_inside_block = false;
    let res = is_block_comment(
        "/* single line */",
        &mut is_inside_block,
        &CommentType {
            line: vec!["//".to_string()],
            block: Some(Block {
                open: "/*".to_string(),
                close: "*/".to_string(),
            }),
        },
    );
    assert!(res);
    assert!(!is_inside_block);
}

#[test]
fn block_comment_valid_single_line_c_style_with_code_and_multiline_start() {
    let mut is_inside_block = false;
    let res = is_block_comment(
        "/* single line */ code /* comment */ code /* another",
        &mut is_inside_block,
        &CommentType {
            line: vec!["//".to_string()],
            block: Some(Block {
                open: "/*".to_string(),
                close: "*/".to_string(),
            }),
        },
    );
    assert!(!res);
    assert!(is_inside_block);
}

#[test]
fn block_comment_valid_single_line_c_style_with_code_and_multiline_end() {
    let mut is_inside_block = true;
    let res = is_block_comment(
        "still a comment */ code! ",
        &mut is_inside_block,
        &CommentType {
            line: vec!["//".to_string()],
            block: Some(Block {
                open: "/*".to_string(),
                close: "*/".to_string(),
            }),
        },
    );
    assert!(!res);
    assert!(!is_inside_block);
}

#[test]
fn block_comment_valid_single_line_c_style_inside_multiline_no_code() {
    let mut is_inside_block = true;
    let res = is_block_comment(
        "// anything here!",
        &mut is_inside_block,
        &CommentType {
            line: vec!["//".to_string()],
            block: Some(Block {
                open: "/*".to_string(),
                close: "*/".to_string(),
            }),
        },
    );
    assert!(res);
    assert!(is_inside_block);
}
