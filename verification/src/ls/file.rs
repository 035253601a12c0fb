//! The records a classified path argument is kept in: an existing regular
//! file, an existing directory with its entry names, or a diagnostic for a
//! path that resolved to nothing.

use vstd::prelude::*;

verus! {

/// A path argument that named an existing regular file.
pub struct File {
    pub file_str: String,
}

impl View for File {
    type V = Seq<char>;

    open spec fn view(&self) -> Seq<char> {
        self.file_str@
    }
}

impl DeepView for File {
    type V = Seq<char>;

    open spec fn deep_view(&self) -> Seq<char> {
        self.file_str@
    }
}

/// A path argument that named an existing directory, together with the names
/// of the directory's entries as the caller read them.
pub struct Directory {
    pub dir_str: String,
    pub file_name_vec: Vec<String>,
}

impl View for Directory {
    type V = (Seq<char>, Seq<Seq<char>>);

    open spec fn view(&self) -> (Seq<char>, Seq<Seq<char>>) {
        (self.dir_str@, self.file_name_vec.deep_view())
    }
}

impl DeepView for Directory {
    type V = (Seq<char>, Seq<Seq<char>>);

    open spec fn deep_view(&self) -> (Seq<char>, Seq<Seq<char>>) {
        self.view()
    }
}

/// The diagnostic recorded for a path argument that named nothing.
pub struct LsError {
    pub error_str: String,
}

impl View for LsError {
    type V = Seq<char>;

    open spec fn view(&self) -> Seq<char> {
        self.error_str@
    }
}

impl DeepView for LsError {
    type V = Seq<char>;

    open spec fn deep_view(&self) -> Seq<char> {
        self.error_str@
    }
}

} // verus!
