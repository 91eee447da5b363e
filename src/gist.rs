//! Gists as the paste service that stores shared logs describes them.
use vstd::prelude::*;

verus! {

/// A request to create a gist. `files` maps each file name to its content
/// and is kept in name order.
#[derive(Debug)]
pub struct CreateGist {
    pub public: bool,
    pub files: Vec<(String, CreateGistFile)>,
    pub description: Option<String>,
}

#[derive(Debug)]
pub struct CreateGistFile {
    pub content: String,
}

/// A gist as the service returns it. `files` maps each file name to the
/// file and is kept in name order.
#[derive(Debug)]
pub struct Gist {
    pub id: Option<String>,
    pub public: bool,
    pub files: Vec<(String, GistFile)>,
    pub description: Option<String>,
}

/// A file of a gist. When `truncated` holds, `content` is only the start of
/// the file and the whole of it is at `raw_url`.
#[derive(Debug)]
pub struct GistFile {
    pub filename: String,
    pub content: String,
    pub raw_url: String,
    pub truncated: bool,
}

impl Gist {
    /// The file that holds the log: the first of the gist's files.
    pub fn current_file(&self) -> (r: Option<&GistFile>)
        ensures
            self.files@.len() == 0 ==> r is None,
            self.files@.len() > 0 ==> r == Option::Some(&self.files@[0].1),
    {
        if self.files.len() == 0 {
            Option::None
        } else {
            Option::Some(&self.files[0].1)
        }
    }
}

} // verus!
