//! The todo domain records: the full server-side entity and its
//! write-projection, together with the pure mapping between them.

use vstd::prelude::*;

use crate::json::{push_i32, push_json_string, push_lit, string_of_chars, todo_dto_json, todo_json};

verus! {

/// Mathematical content of a [`Todo`].
#[verifier::ext_equal]
pub struct TodoView {
    pub id: int,
    pub title: Seq<char>,
    pub is_completed: bool,
}

/// Mathematical content of a [`TodoDto`].
#[verifier::ext_equal]
pub struct TodoDtoView {
    pub title: Seq<char>,
    pub is_completed: bool,
}

/// A server-side todo entity; its identity is `id`.
#[derive(Debug, Clone)]
pub struct Todo {
    id: i32,
    title: String,
    is_completed: bool,
}

/// The subset of [`Todo`] accepted by the server for create and update; the
/// id is path-addressed and therefore absent.
#[derive(Debug, Clone)]
pub struct TodoDto {
    title: String,
    is_completed: bool,
}

impl View for Todo {
    type V = TodoView;

    closed spec fn view(&self) -> TodoView {
        TodoView { id: self.id as int, title: self.title@, is_completed: self.is_completed }
    }
}

impl View for TodoDto {
    type V = TodoDtoView;

    closed spec fn view(&self) -> TodoDtoView {
        TodoDtoView { title: self.title@, is_completed: self.is_completed }
    }
}

/// Marking a projection as completed, at the specification level: the title
/// is kept and the completion flag is forced true.
pub open spec fn spec_mark_completed(d: TodoDtoView) -> TodoDtoView {
    TodoDtoView { title: d.title, is_completed: true }
}

impl Todo {
    /// Builds the entity from its three fields.
    pub fn new(id: i32, title: String, is_completed: bool) -> (r: Todo)
        ensures
            r@ == (TodoView { id: id as int, title: title@, is_completed }),
    {
        Todo { id, title, is_completed }
    }

    pub fn get_id(&self) -> (r: i32)
        ensures
            r as int == self@.id,
    {
        self.id
    }

    pub fn title(&self) -> (r: &str)
        ensures
            r@ == self@.title,
    {
        self.title.as_str()
    }

    pub fn is_completed(&self) -> (r: bool)
        ensures
            r == self@.is_completed,
    {
        self.is_completed
    }

    /// The exact JSON document of this entity, id included.
    pub fn to_json(&self) -> (r: String)
        ensures
            r@ == todo_json(self@),
    {
        let mut out: Vec<char> = Vec::new();
        out.push('{');
        push_lit(&mut out, "\"id\":");
        push_i32(&mut out, self.id);
        out.push(',');
        push_lit(&mut out, "\"title\":");
        push_json_string(&mut out, self.title.as_str());
        out.push(',');
        push_lit(&mut out, "\"isCompleted\":");
        if self.is_completed {
            push_lit(&mut out, "true");
        } else {
            push_lit(&mut out, "false");
        }
        out.push('}');
        proof {
            reveal_strlit("\"id\":");
            reveal_strlit("\"title\":");
            reveal_strlit("\"isCompleted\":");
            reveal_strlit("true");
            reveal_strlit("false");
            assert(out@ =~= todo_json(self@));
        }
        string_of_chars(&out)
    }
}

impl TodoDto {
    pub fn new(title: String, is_completed: bool) -> (r: TodoDto)
        ensures
            r@ == (TodoDtoView { title: title@, is_completed }),
    {
        TodoDto { title, is_completed }
    }

    /// Forces the completion flag true, in place, and hands back a copy of
    /// the updated projection so calls can be chained.
    pub fn mark_as_completed(&mut self) -> (r: TodoDto)
        ensures
            final(self)@ == spec_mark_completed(old(self)@),
            r@ == final(self)@,
    {
        self.is_completed = true;
        TodoDto { title: self.title.clone(), is_completed: self.is_completed }
    }

    pub fn title(&self) -> (r: &str)
        ensures
            r@ == self@.title,
    {
        self.title.as_str()
    }

    pub fn is_completed(&self) -> (r: bool)
        ensures
            r == self@.is_completed,
    {
        self.is_completed
    }

    /// The exact JSON document sent for this write-projection: title and
    /// completion flag only — it never carries an id member.
    pub fn to_json(&self) -> (r: String)
        ensures
            r@ == todo_dto_json(self@),
    {
        let mut out: Vec<char> = Vec::new();
        out.push('{');
        push_lit(&mut out, "\"title\":");
        push_json_string(&mut out, self.title.as_str());
        out.push(',');
        push_lit(&mut out, "\"isCompleted\":");
        if self.is_completed {
            push_lit(&mut out, "true");
        } else {
            push_lit(&mut out, "false");
        }
        out.push('}');
        proof {
            reveal_strlit("\"title\":");
            reveal_strlit("\"isCompleted\":");
            reveal_strlit("true");
            reveal_strlit("false");
            assert(out@ =~= todo_dto_json(self@));
        }
        string_of_chars(&out)
    }
}

/// Pure transformations between the entity and its write-projection.
pub struct Mapper;

impl Mapper {
    /// Copies title and completion flag; drops the id.
    pub fn to_todo_dto(todo: &Todo) -> (r: TodoDto)
        ensures
            r@ == (TodoDtoView { title: todo@.title, is_completed: todo@.is_completed }),
    {
        TodoDto { title: todo.title.clone(), is_completed: todo.is_completed }
    }
}

/// Marking a projection as completed is idempotent: a second application
/// changes nothing.
pub proof fn lemma_mark_completed_idempotent(d: TodoDtoView)
    ensures
        spec_mark_completed(spec_mark_completed(d)) == spec_mark_completed(d),
{
}

} // verus!
