use http_client::json::{todo_from_json, todos_from_json};
use http_client::todo::{Mapper, Todo, TodoDto};

#[test]
fn projection_drops_the_id_and_keeps_the_rest() {
    let t = Todo::new(1, "x".to_string(), false);
    let dto = Mapper::to_todo_dto(&t);
    assert_eq!(dto.title(), "x");
    assert!(!dto.is_completed());
    let doc = dto.to_json();
    assert_eq!(doc, "{\"title\":\"x\",\"isCompleted\":false}");
    assert!(!doc.contains("id"));
}

#[test]
fn mark_as_completed_forces_the_flag_and_is_idempotent() {
    let mut dto = TodoDto::new("x".to_string(), false);
    let once = dto.mark_as_completed();
    assert_eq!(once.title(), "x");
    assert!(once.is_completed());
    let twice = dto.mark_as_completed();
    assert_eq!(twice.title(), once.title());
    assert_eq!(twice.is_completed(), once.is_completed());
    assert_eq!(dto.to_json(), "{\"title\":\"x\",\"isCompleted\":true}");
}

#[test]
fn emitted_entity_document_is_exact() {
    let t = Todo::new(1, "x".to_string(), false);
    assert_eq!(t.to_json(), "{\"id\":1,\"title\":\"x\",\"isCompleted\":false}");
    let n = Todo::new(-42, "a\"b\\c".to_string(), true);
    assert_eq!(n.to_json(), "{\"id\":-42,\"title\":\"a\\\"b\\\\c\",\"isCompleted\":true}");
}

#[test]
fn an_emitted_document_reads_back_as_the_same_entity() {
    for (id, title, done) in [
        (0, "", false),
        (7, "walk the dog", true),
        (-2147483648, "q\"uo\\te", false),
        (2147483647, "äöü βγδ", true),
    ] {
        let t = Todo::new(id, title.to_string(), done);
        let back = todo_from_json(&t.to_json()).unwrap();
        assert_eq!(back.get_id(), id);
        assert_eq!(back.title(), title);
        assert_eq!(back.is_completed(), done);
    }
}

#[test]
fn parser_accepts_whitespace_around_tokens() {
    let body = " { \"id\" : 3 ,\n\t\"title\" : \"a b\" , \"isCompleted\" : false } ";
    let t = todo_from_json(body).unwrap();
    assert_eq!(t.get_id(), 3);
    assert_eq!(t.title(), "a b");
    assert!(!t.is_completed());
}

#[test]
fn parser_undoes_the_two_string_escapes() {
    let t = todo_from_json("{\"id\":1,\"title\":\"a\\\"b\\\\c\",\"isCompleted\":true}").unwrap();
    assert_eq!(t.title(), "a\"b\\c");
}

#[test]
fn parser_rejects_malformed_documents() {
    for body in [
        "",
        "{",
        "{}",
        "null",
        "{\"id\":1}",
        "{\"title\":\"x\",\"isCompleted\":false}",
        "{\"id\":1,\"title\":\"x\",\"isCompleted\":maybe}",
        "{\"id\":1,\"title\":\"x\",\"isCompleted\":false",
        "{\"id\":1,\"title\":\"x\",\"isCompleted\":false}x",
        "{\"id\":1,\"title\":\"x\",\"isCompleted\":false}{}",
        "{\"id\":1,\"title\":\"x\",\"isCompleted\":false,\"extra\":1}",
        "{\"id\":2147483648,\"title\":\"x\",\"isCompleted\":false}",
        "{\"id\":--1,\"title\":\"x\",\"isCompleted\":false}",
        "{\"id\":1,\"title\":\"unterminated,\"isCompleted\":false}",
    ] {
        assert!(todo_from_json(body).is_none(), "accepted: {}", body);
    }
}

#[test]
fn list_parsing_round_trips_and_rejects() {
    let list = todos_from_json("[]").unwrap();
    assert!(list.is_empty());
    let list = todos_from_json(" [ ] ").unwrap();
    assert!(list.is_empty());
    let body = "[{\"id\":1,\"title\":\"a\",\"isCompleted\":false},{\"id\":2,\"title\":\"b\",\"isCompleted\":true}]";
    let list = todos_from_json(body).unwrap();
    assert_eq!(list.len(), 2);
    assert_eq!(list[0].get_id(), 1);
    assert_eq!(list[1].title(), "b");
    assert!(todos_from_json("[").is_none());
    assert!(todos_from_json("[{\"id\":1,\"title\":\"a\",\"isCompleted\":false},]").is_none());
    assert!(todos_from_json("[{\"id\":1,\"title\":\"a\",\"isCompleted\":false}").is_none());
    assert!(todos_from_json("{}").is_none());
}

#[test]
fn large_boundary_ids_parse_exactly() {
    let t = todo_from_json("{\"id\":2147483647,\"title\":\"x\",\"isCompleted\":false}").unwrap();
    assert_eq!(t.get_id(), 2147483647);
    let t = todo_from_json("{\"id\":-2147483648,\"title\":\"x\",\"isCompleted\":false}").unwrap();
    assert_eq!(t.get_id(), -2147483648);
    assert!(todo_from_json("{\"id\":-2147483649,\"title\":\"x\",\"isCompleted\":false}").is_none());
}
