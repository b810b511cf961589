use anubis::common::{extract_file_extenstion, str_eq, BlockContent};
use anubis::config::LanguageConfig;
use anubis::parser_core::{
    block, block_content, block_embed, block_header, block_link, code, file_parser, find, markdown,
    match_at, ws,
};

fn rust_like_lang() -> LanguageConfig {
    LanguageConfig {
        language_tag: "rust".to_string(),
        block_marker: "@".to_string(),
        multiline_start: "/*".to_string(),
        multiline_end: "*/".to_string(),
    }
}

#[test]
fn header_parses_name_and_template() {
    let r = block_header("[BlockName|Template]", 0);
    let (pos, info) = r.expect("header should parse");
    assert_eq!(pos, 20);
    assert_eq!(info.name, "BlockName");
    assert_eq!(info.template_name, "Template");
}

#[test]
fn header_trims_whitespace() {
    let r = block_header("[ Block Name | Template Name ]", 0);
    let (_, info) = r.expect("header should parse");
    assert_eq!(info.name, "Block Name");
    assert_eq!(info.template_name, "Template Name");
}

#[test]
fn header_allows_empty_parts() {
    let (_, info) = block_header("[|]", 0).expect("header should parse");
    assert_eq!(info.name, "");
    assert_eq!(info.template_name, "");
}

#[test]
fn header_without_closing_bracket_fails() {
    assert!(block_header("[BlockName|Template", 0).is_none());
    assert!(block_header("[BlockNameTemplate]", 0).is_none());
    assert!(block_header("BlockName|Template]", 0).is_none());
}

#[test]
fn mixed_block_parses_markdown_and_code() {
    let lang = rust_like_lang();
    let text = "@[Block Name | Template Name] #markdown */ code /*@*/";
    let (pos, b) = block(text, 0, &lang).expect("block should parse");
    assert_eq!(b.info.name, "Block Name");
    assert_eq!(b.info.template_name, "Template Name");
    assert_eq!(
        b.content,
        vec![
            BlockContent::Markdown(" #markdown ".to_string()),
            BlockContent::Code(" code ".to_string()),
        ]
    );
    // the trailing "*/" stays unconsumed
    assert_eq!(pos, text.chars().count() - 2);
}

#[test]
fn multi_block_file_keeps_blocks_in_order() {
    let lang = rust_like_lang();
    let text = "fn main() -> u8\n@[First|t] one @ between the two\n@[Second|t] two @ trailing";
    let blocks = file_parser(text, &lang).expect("scan should succeed");
    assert_eq!(blocks.len(), 2);
    assert_eq!(blocks[0].info.name, "First");
    assert_eq!(blocks[0].content, vec![BlockContent::Markdown(" one ".to_string())]);
    assert_eq!(blocks[1].info.name, "Second");
    assert_eq!(blocks[1].content, vec![BlockContent::Markdown(" two ".to_string())]);
}

#[test]
fn block_free_file_yields_no_blocks() {
    let lang = rust_like_lang();
    let blocks = file_parser("no marker anywhere", &lang).expect("scan should succeed");
    assert!(blocks.is_empty());
}

#[test]
fn malformed_block_fails_the_scan() {
    let lang = rust_like_lang();
    let r = file_parser("text @[broken header", &lang);
    assert!(matches!(r, Err(anubis::common::AnubisError::ParsingError(_))));
}

#[test]
fn link_and_embed_content() {
    let (pos, c) = block_link("{Target}", 0).expect("link should parse");
    assert_eq!(pos, 8);
    assert_eq!(c, BlockContent::Link("Target".to_string()));
    assert!(block_link("{}", 0).is_none());
    assert!(block_link("{{Target}}", 0).is_none());

    let (pos, c) = block_embed("{{Target}}", 0).expect("embed should parse");
    assert_eq!(pos, 10);
    assert_eq!(c, BlockContent::Embed("Target".to_string()));
    assert!(block_embed("{Target}", 0).is_none());
}

#[test]
fn code_fence_runs_between_comment_tokens() {
    let lang = rust_like_lang();
    let (pos, c) = code("*/ let x = 1; /*", 0, &lang).expect("code should parse");
    assert_eq!(pos, 16);
    assert_eq!(c, BlockContent::Code(" let x = 1; ".to_string()));
    assert!(code("let x = 1; /*", 0, &lang).is_none());
    assert!(code("*/ let x = 1;", 0, &lang).is_none());
}

#[test]
fn markdown_stops_at_marker_end_token_and_brace() {
    let lang = rust_like_lang();
    let (pos, c) = markdown("text @", 0, &lang).expect("markdown should parse");
    assert_eq!(pos, 5);
    assert_eq!(c, BlockContent::Markdown("text ".to_string()));

    let (pos, _) = markdown("text */ code", 0, &lang).expect("markdown should parse");
    assert_eq!(pos, 5);

    let (pos, _) = markdown("text {Link}", 0, &lang).expect("markdown should parse");
    assert_eq!(pos, 5);

    // a zero-length run is a failure, and so is a run with no stop at all
    assert!(markdown("@text", 0, &lang).is_none());
    assert!(markdown("text without a stop", 0, &lang).is_none());
}

#[test]
fn content_alternatives_try_link_embed_code_markdown() {
    let lang = rust_like_lang();
    let (_, c) = block_content("{A}", 0, &lang).unwrap();
    assert!(matches!(c, BlockContent::Link(_)));
    let (_, c) = block_content("{{A}}", 0, &lang).unwrap();
    assert!(matches!(c, BlockContent::Embed(_)));
    let (_, c) = block_content("*/x/* @", 0, &lang).unwrap();
    assert!(matches!(c, BlockContent::Code(_)));
    let (_, c) = block_content("x @", 0, &lang).unwrap();
    assert!(matches!(c, BlockContent::Markdown(_)));
}

#[test]
fn find_and_match_scan_by_characters() {
    assert_eq!(find("abcabc", 0, "bc"), Some(1));
    assert_eq!(find("abcabc", 2, "bc"), Some(4));
    assert_eq!(find("abcabc", 0, "zz"), None);
    assert!(match_at("abc", 1, "bc"));
    assert!(!match_at("abc", 0, "bc"));
    assert_eq!(ws("  \t\nx", 0), 4);
    assert_eq!(ws("x", 0), 0);
}

#[test]
fn extension_is_the_text_after_the_last_dot() {
    assert_eq!(extract_file_extenstion("dir/file.rs"), Some("rs"));
    assert_eq!(extract_file_extenstion("a/b/archive.tar.gz"), Some("gz"));
    assert_eq!(extract_file_extenstion("Makefile"), Some("Makefile"));
    assert_eq!(extract_file_extenstion("file."), Some(""));
    assert_eq!(extract_file_extenstion("dir/"), None);
    assert_eq!(extract_file_extenstion(""), None);
    assert_eq!(extract_file_extenstion("."), None);
    assert_eq!(extract_file_extenstion(".."), None);
    assert_eq!(extract_file_extenstion("a/.."), None);
    assert_eq!(extract_file_extenstion(".hidden"), Some("hidden"));
}

#[test]
fn str_eq_compares_characters() {
    assert!(str_eq("abc", "abc"));
    assert!(!str_eq("abc", "abd"));
    assert!(!str_eq("abc", "ab"));
    assert!(str_eq("", ""));
}
