//! Long-format rendering of a single directory entry.

use vstd::prelude::*;

verus! {

/// The kind of filesystem object an entry refers to, as the caller read it
/// from the entry's metadata.
#[derive(Clone, Copy, PartialEq, Eq, Structural, Debug)]
pub enum FileKind {
    Regular,
    Directory,
    Symlink,
    Other,
}

/// The file-type marker that opens a long-format line: `-` for a regular
/// file, `d` for a directory, `l` for a symbolic link, and nothing for any
/// other kind.
pub open spec fn file_type_marker(kind: FileKind) -> Seq<char> {
    match kind {
        FileKind::Regular => "-"@,
        FileKind::Directory => "d"@,
        FileKind::Symlink => "l"@,
        FileKind::Other => Seq::empty(),
    }
}

/// A long-format line: the file-type marker, a tab, then the entry's name.
/// The long format is deliberately minimal; it promises no more than this.
pub open spec fn long_line_of(kind: FileKind, name: Seq<char>) -> Seq<char> {
    file_type_marker(kind) + "\t"@ + name
}

/// An entry is hidden when its name begins with the marker `.`.
pub open spec fn is_hidden(name: Seq<char>) -> bool {
    name.len() > 0 && name[0] == '.'
}

/// Whether the entry named `name` is hidden.
pub fn name_is_hidden(name: &String) -> (r: bool)
    ensures
        r == is_hidden(name@),
{
    if name.as_str().unicode_len() == 0 {
        false
    } else {
        name.as_str().get_char(0) == '.'
    }
}

/// The line displayed for one entry: the long-format line when the long-list
/// option is on, the bare name otherwise.
pub open spec fn entry_line_of(long_list: bool, kind: FileKind, name: Seq<char>) -> Seq<char> {
    if long_list {
        long_line_of(kind, name)
    } else {
        name
    }
}

/// Builds the long-format line for one entry of kind `kind` named `file_name`.
pub fn make_long_list_string(kind: FileKind, file_name: &str) -> (r: String)
    ensures
        r@ == long_line_of(kind, file_name@),
{
    let mut result = make_file_mode_string(kind);
    result.append("\t");
    result.append(file_name);
    proof {
        assert(result@ =~= long_line_of(kind, file_name@));
    }
    result
}

/// The mode part of a long-format line; for now only the file-type marker.
fn make_file_mode_string(kind: FileKind) -> (r: String)
    ensures
        r@ == file_type_marker(kind),
{
    let mut result = String::new();
    push_file_type(&mut result, kind);
    proof {
        assert(result@ =~= file_type_marker(kind));
    }
    result
}

/// Appends the file-type marker for `kind` to `s`.
fn push_file_type(s: &mut String, kind: FileKind)
    ensures
        final(s)@ == old(s)@ + file_type_marker(kind),
{
    match kind {
        FileKind::Regular => s.append("-"),
        FileKind::Directory => s.append("d"),
        FileKind::Symlink => s.append("l"),
        FileKind::Other => {
            proof {
                assert(old(s)@ + file_type_marker(kind) =~= old(s)@);
            }
        },
    }
}

} // verus!
