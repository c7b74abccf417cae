use hermes::graph::NodeType;
use hermes::ingestion::chunker::{
    Chunk, chunk_file, chunk_markdown, chunk_rust, chunk_typescript, extract_fn_name,
    extract_impl_name,
};
use hermes::text::{chars_of, split_lines, string_of};

fn lines_of_str(code: &str) -> Vec<Vec<char>> {
    split_lines(&chars_of(code))
}

fn rust_chunks(code: &str) -> Vec<Chunk> {
    chunk_rust(&lines_of_str(code))
}

fn md_chunks(code: &str) -> Vec<Chunk> {
    chunk_markdown(&lines_of_str(code))
}

fn ts_chunks(code: &str) -> Vec<Chunk> {
    chunk_typescript(&lines_of_str(code))
}

fn fn_name(line: &str) -> Option<String> {
    extract_fn_name(&chars_of(line)).map(|v| string_of(&v))
}

fn impl_name(line: &str) -> Option<String> {
    extract_impl_name(&chars_of(line)).map(|v| string_of(&v))
}

#[test]
fn chunk_rust_function() {
    let code = "pub fn hello(name: &str) -> String {\n    format!(\"Hello {name}\")\n}\n";
    let chunks = rust_chunks(code);
    assert_eq!(chunks.len(), 1);
    assert_eq!(chunks[0].name, "hello");
    assert_eq!(chunks[0].node_type, NodeType::Function);
}

#[test]
fn chunk_rust_struct() {
    let code = "pub struct Config {\n    pub port: u16,\n}\n";
    let chunks = rust_chunks(code);
    assert_eq!(chunks.len(), 1);
    assert_eq!(chunks[0].name, "Config");
    assert_eq!(chunks[0].node_type, NodeType::Struct);
}

#[test]
fn chunk_markdown_sections() {
    let md = "# Title\nIntro\n## Section A\nContent A\n## Section B\nContent B\n";
    let chunks = md_chunks(md);
    assert_eq!(chunks.len(), 3);
    assert_eq!(chunks[0].name, "Title");
}

#[test]
fn extract_fn_name_variants() {
    assert_eq!(fn_name("pub fn hello()"), Some("hello".to_string()));
    assert_eq!(fn_name("fn main()"), Some("main".to_string()));
    assert_eq!(fn_name("pub async fn fetch_data()"), Some("fetch_data".to_string()));
}

#[test]
fn chunk_rust_enum() {
    let code = "pub enum Status {\n    Active,\n    Inactive,\n}\n";
    let chunks = rust_chunks(code);
    assert_eq!(chunks.len(), 1);
    assert_eq!(chunks[0].name, "Status");
    assert_eq!(chunks[0].node_type, NodeType::Enum);
}

#[test]
fn chunk_rust_impl_block() {
    let code = "impl MyStruct {\n    pub fn method(&self) {}\n}\n";
    let chunks = rust_chunks(code);
    // impl block itself is a chunk
    let impl_chunk = chunks.iter().find(|c| c.node_type == NodeType::Impl);
    assert!(impl_chunk.is_some());
    assert_eq!(impl_chunk.unwrap().name, "MyStruct");
}

#[test]
fn chunk_rust_trait() {
    let code = "pub trait Searchable {\n    fn search(&self) -> Vec<String>;\n}\n";
    let chunks = rust_chunks(code);
    // The chunker picks up both the trait block and the fn declaration inside it
    assert!(!chunks.is_empty());
    let trait_chunk = chunks.iter().find(|c| c.node_type == NodeType::Trait);
    assert!(trait_chunk.is_some(), "expected a Trait chunk");
    assert_eq!(trait_chunk.unwrap().name, "Searchable");
}

#[test]
fn extract_impl_name_simple() {
    assert_eq!(impl_name("impl MyStruct {"), Some("MyStruct".to_string()));
}

#[test]
fn extract_impl_name_for_trait() {
    assert_eq!(impl_name("impl Display for MyStruct {"), Some("MyStruct".to_string()));
}

#[test]
fn chunk_file_dispatch_rust() {
    let code = "pub fn run() {\n    println!(\"hi\");\n}\n";
    let chunks = chunk_file("src/lib.rs", code);
    assert!(!chunks.is_empty());
    assert_eq!(chunks[0].node_type, NodeType::Function);
}

#[test]
fn chunk_file_dispatch_markdown() {
    let md = "# Overview\nIntro\n## Usage\nDetails\n";
    let chunks = chunk_file("README.md", md);
    assert!(!chunks.is_empty());
    assert_eq!(chunks[0].node_type, NodeType::Document);
}

#[test]
fn chunk_file_dispatch_unknown_extension() {
    let content = "[package]\nname = \"hermes\"\n";
    let chunks = chunk_file("config.toml", content);
    assert_eq!(chunks.len(), 1);
    assert_eq!(chunks[0].node_type, NodeType::File);
    assert_eq!(chunks[0].name, "config.toml");
}

#[test]
fn chunk_typescript_function() {
    let code = "export function handleRequest(req: Request) {\n    return req;\n}\n";
    let chunks = ts_chunks(code);
    assert!(!chunks.is_empty());
    assert_eq!(chunks[0].name, "handleRequest");
    assert_eq!(chunks[0].node_type, NodeType::Function);
}

#[test]
fn chunk_typescript_arrow_const() {
    let code = "const fetchData = async (url: string) => {\n    return fetch(url);\n};\n";
    let chunks = ts_chunks(code);
    assert!(!chunks.is_empty());
    assert_eq!(chunks[0].name, "fetchData");
}

#[test]
fn build_summary_short_line() {
    let summary = string_of(&hermes::ingestion::chunker::build_summary(
        &chars_of("my_fn"),
        NodeType::Function,
        &chars_of("pub fn my_fn() {"),
    ));
    assert_eq!(summary, "function: pub fn my_fn() {");
}

#[test]
fn build_summary_long_line() {
    let long_line = "pub fn a_very_long_function_name_that_exceeds_eighty_characters_limit_for_sure(x: u32) {";
    let summary = string_of(&hermes::ingestion::chunker::build_summary(
        &chars_of("a_very_long_function_name_that_exceeds_eighty_characters_limit_for_sure"),
        NodeType::Function,
        &chars_of(long_line),
    ));
    assert_eq!(summary, "function: a_very_long_function_name_that_exceeds_eighty_characters_limit_for_sure");
}

#[test]
fn chunk_whole_file_produces_single_chunk() {
    let content = "{\"key\": \"value\"}";
    let chunks = chunk_file("data.json", content);
    assert_eq!(chunks.len(), 1);
    assert_eq!(chunks[0].name, "data.json");
    assert_eq!(chunks[0].start_line, 1);
}

#[test]
fn markdown_single_section() {
    let md = "# Only One\nSome content here\n";
    let chunks = md_chunks(md);
    assert_eq!(chunks.len(), 1);
    assert_eq!(chunks[0].name, "Only One");
}

#[test]
fn markdown_empty_returns_empty() {
    let chunks = md_chunks("");
    assert!(chunks.is_empty());
}

#[test]
fn chunk_line_spans_are_one_based_inclusive() {
    let code = "pub fn hello(name: &str) -> String {\n    format!(\"Hello {name}\")\n}\n";
    let chunks = rust_chunks(code);
    assert_eq!(chunks.len(), 1);
    assert_eq!(chunks[0].start_line, 1);
    assert_eq!(chunks[0].end_line, 3);
    assert_eq!(chunks[0].content, code.trim_end_matches('\n'));
}
