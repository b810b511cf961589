use anubis::common::{AnubisError, Block, BlockContent, BlockInfo};
use anubis::config::{AnubisConfig, LanguageConfig};
use anubis::db::AnubisDatabase;

fn lang() -> LanguageConfig {
    LanguageConfig {
        language_tag: "rust".to_string(),
        block_marker: "@".to_string(),
        multiline_start: "/*".to_string(),
        multiline_end: "*/".to_string(),
    }
}

fn block(name: &str, content: Vec<BlockContent>) -> Block {
    Block {
        info: BlockInfo {
            name: name.to_string(),
            template_name: "page".to_string(),
        },
        content,
    }
}

#[test]
fn insert_block_records_symmetric_edges() {
    let mut db = AnubisDatabase::new();
    let a = block(
        "A",
        vec![
            BlockContent::Markdown("text".to_string()),
            BlockContent::Link("B".to_string()),
            BlockContent::Embed("C".to_string()),
        ],
    );
    db.insert_block(&a, &lang());

    let a_neighbors = db.get_connections("A").expect("A has a graph entry");
    assert!(a_neighbors.contains(&"B".to_string()));
    assert!(a_neighbors.contains(&"C".to_string()));
    let b_neighbors = db.get_connections("B").expect("B has a graph entry");
    assert_eq!(b_neighbors, &vec!["A".to_string()]);
    let c_neighbors = db.get_connections("C").expect("C has a graph entry");
    assert_eq!(c_neighbors, &vec!["A".to_string()]);
}

#[test]
fn insert_block_without_references_gets_an_empty_graph_entry() {
    let mut db = AnubisDatabase::new();
    let a = block("A", vec![BlockContent::Markdown("text".to_string())]);
    db.insert_block(&a, &lang());
    assert_eq!(db.get_connections("A"), Some(&vec![]));
}

#[test]
fn insert_block_twice_changes_nothing() {
    let mut db = AnubisDatabase::new();
    let a = block(
        "A",
        vec![
            BlockContent::Link("B".to_string()),
            BlockContent::Embed("C".to_string()),
        ],
    );
    db.insert_block(&a, &lang());
    let connections_before = db.get_connections("A").unwrap().clone();
    let b_before = db.get_connections("B").unwrap().clone();

    db.insert_block(&a, &lang());

    assert_eq!(db.get_block("A"), Some(&a));
    assert_eq!(db.get_connections("A").unwrap(), &connections_before);
    assert_eq!(db.get_connections("B").unwrap(), &b_before);
    assert_eq!(db.get_lang("A").unwrap().language_tag, "rust");
}

#[test]
fn add_edge_is_directed_and_deduplicated() {
    let mut db = AnubisDatabase::new();
    db.add_edge("X".to_string(), "Y".to_string());
    db.add_edge("X".to_string(), "Y".to_string());
    db.add_edge("X".to_string(), "Z".to_string());
    assert_eq!(
        db.get_connections("X").unwrap(),
        &vec!["Y".to_string(), "Z".to_string()]
    );
    assert_eq!(db.get_connections("Y"), None);
}

#[test]
fn add_edge_undirected_records_both_directions() {
    let mut db = AnubisDatabase::new();
    db.add_edge_undirected("X".to_string(), "Y".to_string());
    assert_eq!(db.get_connections("X").unwrap(), &vec!["Y".to_string()]);
    assert_eq!(db.get_connections("Y").unwrap(), &vec!["X".to_string()]);
}

#[test]
fn duplicate_names_keep_the_last_block() {
    let mut db = AnubisDatabase::new();
    let first = block("A", vec![BlockContent::Markdown("one".to_string())]);
    let second = block("A", vec![BlockContent::Markdown("two".to_string())]);
    db.insert_blocks(vec![first, second.clone()], &lang());
    assert_eq!(db.get_block("A"), Some(&second));
}

#[test]
fn html_cache_round_trip() {
    let mut db = AnubisDatabase::new();
    assert_eq!(db.get_html("A"), None);
    db.insert_html("A".to_string(), "<p>hi</p>".to_string());
    assert_eq!(db.get_html("A"), Some(&"<p>hi</p>".to_string()));
}

#[test]
fn language_lookup_by_extension() {
    let mut config = AnubisConfig::new();
    config.language_configs.insert("rs".to_string(), lang());
    assert_eq!(config.get_language("rs").unwrap().block_marker, "@");
    assert!(config.get_language("py").is_none());
}

#[test]
fn table_tracks_its_keys() {
    let mut table: anubis::table::Table<String> = anubis::table::Table::new();
    assert_eq!(table.len(), 0);
    table.insert("a".to_string(), "1".to_string());
    table.insert("b".to_string(), "2".to_string());
    table.insert("a".to_string(), "3".to_string());
    assert_eq!(table.len(), 2);
    assert!(table.contains_key("a"));
    assert!(!table.contains_key("c"));
    assert_eq!(table.get("a"), Some(&"3".to_string()));
    assert_eq!(table.keys(), vec!["a".to_string(), "b".to_string()]);
}

#[test]
fn error_description_returns_the_message() {
    let e = AnubisError::BlockNotFoundError("missing".to_string());
    assert_eq!(e.description(), "missing");
    let e = AnubisError::ParsingError("bad".to_string());
    assert_eq!(e.description(), "bad");
}
