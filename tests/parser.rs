use oba::parser::{chunk_size, parse_line, HostEntry, Orchestrator, Parser, Worker};
use oba::render::render;
use oba::text::{split_lines, to_chars};

fn hosts(entries: &[HostEntry]) -> Vec<String> {
    entries.iter().map(|e| e.0.clone()).collect()
}

fn line(s: &str) -> Option<String> {
    parse_line(&to_chars(s)).map(|e| e.0)
}

#[test]
fn test_parser() {
    let mut entries = Vec::new();
    let parse_result = Parser::parse(
        r#"
            127.0.0.1 localhost
            127.0.0.1 localhost.localdomain
            0.0.0.0 0.0.0.0
            # Start of list

            0.0.0.0 domain-a.com
            0.0.0.0 domain-b.com
            0.0.0.0 domain-c.com
        "#,
        4,
        &mut entries,
    );

    match parse_result {
        Err(err) => panic!("{err}"),
        Ok(()) => {
            assert!(entries.len() == 6);
        }
    }
}

#[test]
fn comments_and_blank_lines_are_skipped() {
    let mut entries = Vec::new();
    let r = Parser::parse(
        "0.0.0.0 ads.example\n# comment\n\n0.0.0.0 tracker.example\n",
        2,
        &mut entries,
    );
    assert!(r.is_ok());
    assert_eq!(hosts(&entries), vec!["ads.example", "tracker.example"]);
}

#[test]
fn a_lone_token_names_no_host() {
    assert_eq!(line("0.0.0.0"), None);
    let mut entries = Vec::new();
    Parser::parse("0.0.0.0\n", 1, &mut entries).unwrap();
    assert!(entries.is_empty());
}

#[test]
fn lines_are_normalised() {
    assert_eq!(line("   0.0.0.0\tads.com   "), Some("ads.com".to_string()));
    assert_eq!(line("0.0.0.0 ads.com # trailing"), Some("ads.com".to_string()));
    assert_eq!(line("0.0.0.0 ads.com#x"), Some("ads.com".to_string()));
    assert_eq!(line("0.0.0.0 # ads.com"), None);
    assert_eq!(line("   # 0.0.0.0 ads.com"), None);
    assert_eq!(line(""), None);
    assert_eq!(line("  \t "), None);
    assert_eq!(line("0.0.0.0 one.com two.com"), Some("one.com".to_string()));
    assert_eq!(line("0.0.0.0 ads.com\r"), Some("ads.com".to_string()));
    assert_eq!(line("0.0.0.0\u{a0}wide.com"), Some("wide.com".to_string()));
}

#[test]
fn lines_split_at_newlines() {
    let ls = split_lines(&to_chars("a\r\nb\n\nc"));
    let as_strings: Vec<String> = ls.iter().map(|l| l.iter().collect()).collect();
    assert_eq!(as_strings, vec!["a\r", "b", "", "c"]);
    assert_eq!(split_lines(&to_chars("x\n")).len(), 1);
    assert!(split_lines(&to_chars("")).is_empty());
}

#[test]
fn chunk_sizes_round_up() {
    assert_eq!(chunk_size(10, 4), 3);
    assert_eq!(chunk_size(8, 4), 2);
    assert_eq!(chunk_size(3, 8), 1);
    assert_eq!(chunk_size(0, 4), 0);
    assert_eq!(Orchestrator::new(2).resolve_chunk_size(0), 0);
    assert_eq!(chunk_size(5, 0), 5);
    assert_eq!(Orchestrator::new(0).workers, 1);
    assert_eq!(Orchestrator::new(3).resolve_chunk_size(7), 3);
}

#[test]
fn chunking_does_not_change_the_records() {
    let text = "0.0.0.0 a.com\n0.0.0.0 b.com\n#c\n0.0.0.0 d.com\n\n0.0.0.0 e.com\n0.0.0.0\n";
    let mut whole = Vec::new();
    Parser::parse(text, 1, &mut whole).unwrap();
    for workers in 2..9 {
        let mut chunked = Vec::new();
        Parser::parse(text, workers, &mut chunked).unwrap();
        let mut a = hosts(&whole);
        let mut b = hosts(&chunked);
        a.sort();
        b.sort();
        assert_eq!(a, b);
    }
    assert_eq!(hosts(&whole), vec!["a.com", "b.com", "d.com", "e.com"]);
}

#[test]
fn duplicates_are_kept() {
    let mut entries = Vec::new();
    Parser::parse("0.0.0.0 a.com\n0.0.0.0 a.com\n", 2, &mut entries).unwrap();
    assert_eq!(hosts(&entries), vec!["a.com", "a.com"]);
}

#[test]
fn worker_appends_to_collector() {
    let lines = split_lines(&to_chars("0.0.0.0 x.com\nnothing\n0.0.0.0 y.com"));
    let mut collector = vec![HostEntry::new("first.com")];
    Worker::new().work(&lines, &mut collector);
    assert_eq!(hosts(&collector), vec!["first.com", "x.com", "y.com"]);
}

#[test]
fn render_writes_one_line_per_record() {
    let entries = vec![HostEntry::new("a.com"), HostEntry::new("b.org")];
    assert_eq!(render(&entries), "0.0.0.0 a.com\n0.0.0.0 b.org\n");
    assert_eq!(render(&[]), "");
    assert_eq!(HostEntry::new("c.net").line(), "0.0.0.0 c.net");
}

#[test]
fn rendered_text_parses_back() {
    let entries = vec![
        HostEntry::new("a.com"),
        HostEntry::new("b.org"),
        HostEntry::new("a.com"),
    ];
    let text = render(&entries);
    let mut back = Vec::new();
    Parser::parse(&text, 3, &mut back).unwrap();
    assert_eq!(hosts(&back), hosts(&entries));
}
