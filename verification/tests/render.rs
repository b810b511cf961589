use std::cell::RefCell;

use anubis::common::{AnubisError, Block, BlockContent, BlockInfo};
use anubis::config::LanguageConfig;
use anubis::db::AnubisDatabase;
use anubis::renderer::{assemble, code_fence, link_html, AnubisRenderer, AnubisRendererInterface};

fn lang() -> LanguageConfig {
    LanguageConfig {
        language_tag: "rust".to_string(),
        block_marker: "@".to_string(),
        multiline_start: "/*".to_string(),
        multiline_end: "*/".to_string(),
    }
}

fn block(name: &str, content: Vec<BlockContent>) -> Block {
    Block {
        info: BlockInfo {
            name: name.to_string(),
            template_name: "page".to_string(),
        },
        content,
    }
}

/// A renderer whose markdown output changes on every call, so a repeated
/// render can only match the first one when the cache short-circuited it.
struct CountingRenderer {
    calls: RefCell<u32>,
}

impl AnubisRendererInterface for CountingRenderer {
    fn markdown_to_html(&self, markdown: &str) -> String {
        let mut calls = self.calls.borrow_mut();
        *calls += 1;
        format!("{}#{}", markdown, calls)
    }

    fn apply_template(&self, _template_name: &str, html: &str, _neighbors: &Vec<String>) -> Result<
        String,
        String,
    > {
        Ok(html.to_string())
    }
}

/// A renderer whose template step always fails.
struct FailingTemplates {}

impl AnubisRendererInterface for FailingTemplates {
    fn markdown_to_html(&self, markdown: &str) -> String {
        markdown.to_string()
    }

    fn apply_template(&self, _template_name: &str, _html: &str, _neighbors: &Vec<String>) -> Result<
        String,
        String,
    > {
        Err("unbound variable".to_string())
    }
}

#[test]
fn render_markdown_and_links_exactly() {
    let mut db = AnubisDatabase::new();
    let a = block(
        "A",
        vec![
            BlockContent::Markdown("hello ".to_string()),
            BlockContent::Link("B".to_string()),
        ],
    );
    db.insert_block(&a, &lang());
    let out = db.render("A", "http://x/", &AnubisRenderer {}).unwrap();
    assert_eq!(out, "hello <a href=\"http://x/B\">B</a>");
}

#[test]
fn render_wraps_code_in_a_tagged_fence() {
    let mut db = AnubisDatabase::new();
    let a = block(
        "A",
        vec![
            BlockContent::Code(" let x = 1; ".to_string()),
            BlockContent::Link("B".to_string()),
        ],
    );
    db.insert_block(&a, &lang());
    let out = db.render("A", "http://x/", &AnubisRenderer {}).unwrap();
    assert_eq!(out, "```rust\n let x = 1; \n```<a href=\"http://x/B\">B</a>");
}

#[test]
fn fragment_builders_produce_exact_text() {
    assert_eq!(link_html("base/", "Name"), "<a href=\"base/Name\">Name</a>");
    assert_eq!(code_fence("rust", "x"), "```rust\nx\n```");
    let frags = vec!["a".to_string(), "".to_string(), "bc".to_string()];
    assert_eq!(assemble(&frags), "abc");
    assert_eq!(assemble(&vec![]), "");
}

#[test]
fn second_render_comes_from_the_cache() {
    let mut db = AnubisDatabase::new();
    let a = block(
        "A",
        vec![
            BlockContent::Markdown("text".to_string()),
            BlockContent::Link("B".to_string()),
        ],
    );
    db.insert_block(&a, &lang());
    let renderer = CountingRenderer { calls: RefCell::new(0) };
    let first = db.render("A", "http://x/", &renderer).unwrap();
    let second = db.render("A", "http://x/", &renderer).unwrap();
    // the counting renderer would have produced "text#2" on a second pass
    assert_eq!(first, "text#1<a href=\"http://x/B\">B</a>");
    assert_eq!(second, first);
    assert_eq!(*renderer.calls.borrow(), 1);
}

#[test]
fn embedded_blocks_are_spliced_inline() {
    let mut db = AnubisDatabase::new();
    let a = block(
        "A",
        vec![
            BlockContent::Markdown("before ".to_string()),
            BlockContent::Embed("B".to_string()),
        ],
    );
    let b = block("B", vec![BlockContent::Link("A".to_string())]);
    db.insert_block(&a, &lang());
    db.insert_block(&b, &lang());
    let out = db.render("A", "u/", &AnubisRenderer {}).unwrap();
    assert_eq!(out, "before <a href=\"u/A\">A</a>");
    // the embedded block was itself rendered and cached
    assert_eq!(db.get_html("B"), Some(&"<a href=\"u/A\">A</a>".to_string()));
}

#[test]
fn mutual_embeds_fail_with_a_recursion_error() {
    let mut db = AnubisDatabase::new();
    let a = block("A", vec![BlockContent::Embed("B".to_string())]);
    let b = block("B", vec![BlockContent::Embed("A".to_string())]);
    db.insert_block(&a, &lang());
    db.insert_block(&b, &lang());
    let r = db.render("A", "u/", &AnubisRenderer {});
    assert!(matches!(r, Err(AnubisError::RecursiveTemplateError(_))));
    assert_eq!(db.get_html("A"), None);
    assert_eq!(db.get_html("B"), None);
}

#[test]
fn self_embed_fails_with_a_recursion_error() {
    let mut db = AnubisDatabase::new();
    let a = block("A", vec![BlockContent::Embed("A".to_string())]);
    db.insert_block(&a, &lang());
    let r = db.render("A", "u/", &AnubisRenderer {});
    assert!(matches!(r, Err(AnubisError::RecursiveTemplateError(_))));
    assert_eq!(db.get_html("A"), None);
}

#[test]
fn dangling_embed_fails_and_caches_nothing() {
    let mut db = AnubisDatabase::new();
    let a = block("A", vec![BlockContent::Embed("Missing".to_string())]);
    db.insert_block(&a, &lang());
    let r = db.render("A", "u/", &AnubisRenderer {});
    assert!(matches!(r, Err(AnubisError::BlockNotFoundError(_))));
    assert_eq!(db.get_html("A"), None);
    assert_eq!(db.get_html("Missing"), None);
}

#[test]
fn missing_block_fails_with_block_not_found() {
    let mut db = AnubisDatabase::new();
    let r = db.render("Nowhere", "u/", &AnubisRenderer {});
    assert!(matches!(r, Err(AnubisError::BlockNotFoundError(_))));
}

#[test]
fn missing_language_binding_fails_with_config_error() {
    let mut db = AnubisDatabase::new();
    let a = block("A", vec![BlockContent::Link("B".to_string())]);
    db.block_db.insert("A".to_string(), a);
    let r = db.render("A", "u/", &AnubisRenderer {});
    assert!(matches!(r, Err(AnubisError::ConfigError(_))));
}

#[test]
fn missing_graph_entry_fails_with_connections_not_found() {
    let mut db = AnubisDatabase::new();
    // a graph entry can only be missing when the store was filled past the
    // insertion API; rendering treats that as a data-model violation
    let a = block("A", vec![BlockContent::Markdown("text".to_string())]);
    db.block_db.insert("A".to_string(), a);
    db.lang_db.insert("A".to_string(), lang());
    let r = db.render("A", "u/", &AnubisRenderer {});
    assert!(matches!(r, Err(AnubisError::ConnectionsNotFound(_))));
}

#[test]
fn reference_free_block_renders() {
    let mut db = AnubisDatabase::new();
    let a = block("A", vec![BlockContent::Markdown("text".to_string())]);
    db.insert_block(&a, &lang());
    assert_eq!(db.get_connections("A"), Some(&vec![]));
    let out = db.render("A", "u/", &AnubisRenderer {}).unwrap();
    assert_eq!(out, "text");
}

#[test]
fn failing_template_propagates_a_context_error() {
    let mut db = AnubisDatabase::new();
    let a = block("A", vec![BlockContent::Link("B".to_string())]);
    db.insert_block(&a, &lang());
    let r = db.render("A", "u/", &FailingTemplates {});
    assert!(matches!(r, Err(AnubisError::ContextError(_))));
    assert_eq!(db.get_html("A"), None);
}
