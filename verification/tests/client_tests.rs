use http_client::client::{
    decode_todo_response, decode_todos_response, handle_response, Client, HttpClient, Method,
    TransportOutcome,
};
use http_client::todo::{Mapper, Todo};

fn response(status: u16, body: &str) -> TransportOutcome {
    TransportOutcome::Response { status, body: body.to_string() }
}

#[test]
fn url_is_base_concat_path_verbatim() {
    let c = HttpClient::new("http://localhost:5185/api/todo".to_string());
    assert_eq!(c.build_url(""), "http://localhost:5185/api/todo");
    assert_eq!(c.build_url("/1"), "http://localhost:5185/api/todo/1");
    let d = HttpClient::new("a/".to_string());
    assert_eq!(d.build_url("b"), "a/b");
    let e = HttpClient::new("a".to_string());
    assert_eq!(e.build_url("b"), "ab");
}

#[test]
fn every_set_header_appears_on_the_request() {
    let c = HttpClient::new("http://h".to_string())
        .set_header("Accept".to_string(), "application/json".to_string())
        .set_header("X-Request-Id".to_string(), "42".to_string());
    let r = c.get("/x");
    assert_eq!(r.headers.len(), 2);
    assert!(r
        .headers
        .iter()
        .any(|p| p.0 == "Accept" && p.1 == "application/json"));
    assert!(r.headers.iter().any(|p| p.0 == "X-Request-Id" && p.1 == "42"));
}

#[test]
fn setting_the_same_header_twice_keeps_only_the_last_value() {
    let c = HttpClient::new("http://h".to_string())
        .set_header("Accept".to_string(), "text/plain".to_string())
        .set_header("Accept".to_string(), "application/json".to_string());
    let r = c.delete("/x");
    assert_eq!(r.headers.len(), 1);
    assert_eq!(r.headers[0].0, "Accept");
    assert_eq!(r.headers[0].1, "application/json");
}

#[test]
fn each_verb_plans_its_method_and_body() {
    let c = HttpClient::new("http://h".to_string());
    let g = c.get("/p");
    assert_eq!(g.method, Method::Get);
    assert_eq!(g.url, "http://h/p");
    assert!(g.body.is_none());
    let d = c.delete("/p");
    assert_eq!(d.method, Method::Delete);
    assert!(d.body.is_none());
    let p = c.post("/p", "{\"k\":1}".to_string());
    assert_eq!(p.method, Method::Post);
    assert_eq!(p.body.as_deref(), Some("{\"k\":1}"));
    let u = c.put("/p", "{}".to_string());
    assert_eq!(u.method, Method::Put);
    assert_eq!(u.body.as_deref(), Some("{}"));
}

#[test]
fn status_200_with_matching_body_yields_the_fixture() {
    let body = "{\"id\":7,\"title\":\"walk\",\"isCompleted\":true}";
    let t = decode_todo_response(response(200, body)).unwrap();
    assert_eq!(t.get_id(), 7);
    assert_eq!(t.title(), "walk");
    assert!(t.is_completed());
}

#[test]
fn status_200_with_non_matching_body_yields_absence() {
    assert!(decode_todo_response(response(200, "{}")).is_none());
    assert!(decode_todo_response(response(200, "")).is_none());
    assert!(decode_todo_response(response(200, "{\"id\":\"x\",\"title\":\"a\",\"isCompleted\":true}")).is_none());
    assert!(decode_todos_response(response(200, "{\"id\":1,\"title\":\"a\",\"isCompleted\":true}")).is_none());
}

#[test]
fn any_status_other_than_exactly_200_yields_absence() {
    let body = "{\"id\":7,\"title\":\"walk\",\"isCompleted\":true}";
    for status in [201u16, 204, 301, 304, 400, 404, 500, 503] {
        assert!(handle_response(response(status, body)).is_none());
        assert!(decode_todo_response(response(status, body)).is_none());
    }
    assert_eq!(handle_response(response(200, body)).as_deref(), Some(body));
}

#[test]
fn a_failed_exchange_yields_absence() {
    assert!(handle_response(TransportOutcome::Failure).is_none());
    assert!(decode_todo_response(TransportOutcome::Failure).is_none());
    assert!(decode_todos_response(TransportOutcome::Failure).is_none());
}

#[test]
fn todo_walkthrough_end_to_end() {
    let c = HttpClient::new("http://localhost:5185/api/todo".to_string())
        .set_header("Accept".to_string(), "application/json".to_string());

    // First listing: two items, the first not yet completed.
    let list_body = "[{\"id\":1,\"title\":\"shop\",\"isCompleted\":false},{\"id\":2,\"title\":\"cook\",\"isCompleted\":true}]";
    let g = c.get("");
    assert_eq!(g.method, Method::Get);
    assert_eq!(g.url, "http://localhost:5185/api/todo");
    let todos = decode_todos_response(response(200, list_body)).unwrap();
    assert_eq!(todos.len(), 2);
    assert_eq!(todos[0].get_id(), 1);
    assert!(!todos[0].is_completed());

    // Mark the first as completed and send the projection to its path.
    let mut dto = Mapper::to_todo_dto(&todos[0]);
    let dto = dto.mark_as_completed();
    let put = c.put(&format!("/{}", todos[0].get_id()), dto.to_json());
    assert_eq!(put.method, Method::Put);
    assert_eq!(put.url, "http://localhost:5185/api/todo/1");
    assert_eq!(put.body.as_deref(), Some("{\"title\":\"shop\",\"isCompleted\":true}"));
    let updated = decode_todo_response(response(
        200,
        "{\"id\":1,\"title\":\"shop\",\"isCompleted\":true}",
    ))
    .unwrap();
    assert!(updated.is_completed());

    // The second listing reflects the update.
    let relist = "[{\"id\":1,\"title\":\"shop\",\"isCompleted\":true},{\"id\":2,\"title\":\"cook\",\"isCompleted\":true}]";
    let todos = decode_todos_response(response(200, relist)).unwrap();
    assert!(todos.iter().find(|t| t.get_id() == 1).unwrap().is_completed());

    // Deleting each item succeeds or yields absence without raising.
    for t in todos.iter() {
        let del = c.delete(&format!("/{}", t.get_id()));
        assert_eq!(del.method, Method::Delete);
        assert!(decode_todo_response(response(204, "")).is_none());
        assert_eq!(handle_response(response(200, "")).as_deref(), Some(""));
    }
}

#[test]
fn chained_headers_survive_every_verb() {
    let c = HttpClient::new("b".to_string())
        .set_header("A".to_string(), "1".to_string())
        .set_header("B".to_string(), "2".to_string());
    for r in [c.get("/"), c.post("/", "{}".to_string()), c.put("/", "{}".to_string()), c.delete("/")] {
        assert_eq!(r.headers.len(), 2);
        assert!(r.headers.iter().any(|p| p.0 == "A" && p.1 == "1"));
        assert!(r.headers.iter().any(|p| p.0 == "B" && p.1 == "2"));
    }
}

#[test]
fn todo_fields_survive_construction() {
    let t = Todo::new(-5, "äöü".to_string(), false);
    assert_eq!(t.get_id(), -5);
    assert_eq!(t.title(), "äöü");
    assert!(!t.is_completed());
}
