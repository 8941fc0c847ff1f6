use vstd::prelude::*;

verus! {

/// Options that steer parsing: the recognised TODO keywords, as the
/// "todo" set and the "done" set.
pub struct ParseConfig {
    pub todo_keywords: (Vec<String>, Vec<String>),
}

impl ParseConfig {
    pub fn new(todo: Vec<String>, done: Vec<String>) -> (r: ParseConfig)
        ensures
            r.todo_keywords.0@ == todo@,
            r.todo_keywords.1@ == done@,
    {
        ParseConfig { todo_keywords: (todo, done) }
    }
}

impl Default for ParseConfig {
    /// `TODO` as the only todo keyword, `DONE` as the only done keyword.
    fn default() -> (r: ParseConfig)
        ensures
            r.todo_keywords.0@.len() == 1,
            r.todo_keywords.0@[0]@ == "TODO"@,
            r.todo_keywords.0@[0]@ == seq!['T', 'O', 'D', 'O'],
            r.todo_keywords.1@.len() == 1,
            r.todo_keywords.1@[0]@ == "DONE"@,
            r.todo_keywords.1@[0]@ == seq!['D', 'O', 'N', 'E'],
    {
        let todo = vec!["TODO".to_owned()];
        let done = vec!["DONE".to_owned()];
        proof {
            reveal_strlit("TODO");
            reveal_strlit("DONE");
        }
        ParseConfig { todo_keywords: (todo, done) }
    }
}

} // verus!
