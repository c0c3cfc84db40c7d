use todo_list::codec::load_tasks;
use todo_list::codec::parse_tasks;
use todo_list::codec::serialize_tasks;
use todo_list::numbers::parse_u32;
use todo_list::numbers::u32_to_chars;
use todo_list::task::Task;

fn sample() -> Vec<Task> {
    vec![
        Task { id: 1, description: "buy oat milk".to_string() },
        Task { id: 2, description: "water plants".to_string() },
    ]
}

#[test]
fn serialize_empty_collection() {
    let empty: Vec<Task> = Vec::new();
    assert_eq!(serialize_tasks(&empty), "[]");
}

#[test]
fn serialize_writes_id_and_description_fields() {
    let tasks = vec![Task { id: 7, description: "call home".to_string() }];
    assert_eq!(serialize_tasks(&tasks), "[{\"id\":7,\"description\":\"call home\"}]");
}

#[test]
fn serialize_escapes_quotes_and_backslashes() {
    let tasks = vec![Task { id: 1, description: "say \"hi\" b\\w".to_string() }];
    assert_eq!(
        serialize_tasks(&tasks),
        "[{\"id\":1,\"description\":\"say \\\"hi\\\" b\\\\w\"}]"
    );
}

#[test]
fn parse_reads_back_what_serialize_wrote() {
    let tasks = sample();
    let text = serialize_tasks(&tasks);
    let back = parse_tasks(&text).expect("canonical text must parse");
    assert_eq!(back.len(), 2);
    assert_eq!(back[0].id, 1);
    assert_eq!(back[0].description, "buy oat milk");
    assert_eq!(back[1].id, 2);
    assert_eq!(back[1].description, "water plants");
}

#[test]
fn save_after_load_preserves_stored_text() {
    let text = "[{\"id\":3,\"description\":\"a, b: {c}\"},{\"id\":9,\"description\":\"\"}]";
    let loaded = load_tasks(&Some(text.to_string()));
    assert_eq!(loaded.len(), 2);
    assert_eq!(serialize_tasks(&loaded), text);
}

#[test]
fn descriptions_with_escapes_round_trip() {
    let tasks = vec![Task { id: 1, description: "q\" b\\ end".to_string() }];
    let text = serialize_tasks(&tasks);
    let back = parse_tasks(&text).expect("escaped text must parse");
    assert_eq!(back[0].description, "q\" b\\ end");
    assert_eq!(serialize_tasks(&back), text);
}

#[test]
fn load_of_missing_content_is_empty() {
    let loaded = load_tasks(&None);
    assert!(loaded.is_empty());
}

#[test]
fn load_of_malformed_content_is_empty_like_missing() {
    let malformed = [
        "",
        "not a document",
        "[",
        "[{\"id\":1}]",
        "[{\"id\":01,\"description\":\"x\"}]",
        "[{\"id\":1,\"description\":\"x\"}",
        "[{\"id\":4294967296,\"description\":\"x\"}]",
        "{\"id\":1,\"description\":\"x\"}",
    ];
    for text in malformed {
        let loaded = load_tasks(&Some(text.to_string()));
        assert!(loaded.is_empty(), "content {:?} must load as empty", text);
    }
}

#[test]
fn load_of_well_formed_content_gives_the_tasks() {
    let text = "[{\"id\":5,\"description\":\"only one\"}]";
    let loaded = load_tasks(&Some(text.to_string()));
    assert_eq!(loaded.len(), 1);
    assert_eq!(loaded[0].id, 5);
    assert_eq!(loaded[0].description, "only one");
}

#[test]
fn parse_rejects_trailing_text() {
    assert!(parse_tasks("[] ").is_none());
    assert!(parse_tasks("[{\"id\":1,\"description\":\"x\"}] ").is_none());
}

#[test]
fn u32_text_round_trips() {
    for n in [0u32, 1, 9, 10, 42, 4294967295] {
        let chars = u32_to_chars(n);
        let text: String = chars.iter().collect();
        assert_eq!(text, n.to_string());
        assert_eq!(parse_u32(&chars), Some(n));
    }
}

#[test]
fn parse_u32_matches_the_standard_parser() {
    let cases = ["7", "+7", "007", "0", "abc", "", "+", "4294967295", "4294967296", "1 2", "-1"];
    for case in cases {
        let chars: Vec<char> = case.chars().collect();
        assert_eq!(parse_u32(&chars), case.parse::<u32>().ok(), "case {:?}", case);
    }
}
