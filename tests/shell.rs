use llm_udf::shell::{parse_dot_command, split_words, table_format, DotCommand, StatementBuffer, TableFormat};

#[test]
fn dot_commands() {
    assert_eq!(parse_dot_command(".quit"), DotCommand::Quit);
    assert_eq!(parse_dot_command(".EXIT"), DotCommand::Quit);
    assert_eq!(parse_dot_command(".h"), DotCommand::Help);
    assert_eq!(parse_dot_command(".tables"), DotCommand::Tables);
    assert_eq!(parse_dot_command(".schema docs extra"), DotCommand::Schema(Some("docs".to_string())));
    assert_eq!(parse_dot_command(".s"), DotCommand::Schema(None));
    assert_eq!(
        parse_dot_command(".load  my docs=data/a b.csv"),
        DotCommand::Load(Some("my docs=data/a b.csv".to_string()))
    );
    assert_eq!(parse_dot_command(".l"), DotCommand::Load(None));
    assert_eq!(parse_dot_command(".functions"), DotCommand::Functions);
    assert_eq!(parse_dot_command(".Nope x"), DotCommand::Unknown(".nope".to_string()));
}

#[test]
fn words_split_on_white_space() {
    assert_eq!(split_words("  a\tbb  c "), vec!["a".to_string(), "bb".to_string(), "c".to_string()]);
    assert!(split_words("   ").is_empty());
}

#[test]
fn statements_complete_at_semicolon() {
    let mut buffer = StatementBuffer::new();
    assert_eq!(buffer.prompt(), "llmql> ");
    assert!(buffer.is_command("  .help"));
    assert!(buffer.feed("SELECT 1").is_none());
    assert_eq!(buffer.prompt(), "   ...> ");
    assert!(!buffer.is_command(".x"));
    let st = buffer.feed("  FROM t;; ").unwrap();
    assert_eq!(st.history, "SELECT 1 FROM t;;");
    assert_eq!(st.sql, "SELECT 1 FROM t");
    assert_eq!(buffer.prompt(), "llmql> ");
    assert!(buffer.feed(";").is_none());
    assert_eq!(buffer.text, "");
}

#[test]
fn table_formats() {
    assert_eq!(table_format("CSV"), Some(TableFormat::Csv));
    assert_eq!(table_format("parquet"), Some(TableFormat::Parquet));
    assert_eq!(table_format("NDJSON"), Some(TableFormat::Json));
    assert_eq!(table_format("jsonl"), Some(TableFormat::Json));
    assert_eq!(table_format("txt"), None);
}

#[test]
fn table_specs() {
    assert_eq!(
        llm_udf::shell::split_table_spec("docs=data/a=b.csv"),
        Some(("docs".to_string(), "data/a=b.csv".to_string()))
    );
    assert_eq!(llm_udf::shell::split_table_spec("data/a.csv"), None);
    assert_eq!(llm_udf::shell::split_table_spec("=x"), Some((String::new(), "x".to_string())));
}
