//! Aggregation for recursive mode: each file's extracted lines join the
//! running output, preceded by a separator header naming the file whenever
//! the file produced anything.

use vstd::prelude::*;

use crate::extract::line_views;

verus! {

/// The separator header printed before a file's block of output.
pub open spec fn file_header(path: Seq<char>) -> Seq<char> {
    "-------- "@ + path + " --------"@
}

/// What one file contributes to the aggregate output: nothing when it
/// yielded no lines, else exactly one header naming it followed by its
/// lines.
pub open spec fn file_block(path: Seq<char>, file_lines: Seq<Seq<char>>) -> Seq<Seq<char>> {
    if file_lines.len() == 0 {
        Seq::<Seq<char>>::empty()
    } else {
        seq![file_header(path)] + file_lines
    }
}

/// Render the separator header for one file.
pub fn format_file_header(path: &str) -> (r: String)
    ensures
        r@ == file_header(path@),
{
    let mut r = String::from_str("-------- ");
    r.append(path);
    r.append(" --------");
    proof {
        assert(r@ =~= file_header(path@));
    }
    r
}

/// Append one file's block to the aggregate output: a file that yielded no
/// lines contributes nothing, a file that yielded any is preceded by exactly
/// one header line naming it.
pub fn append_file_block(acc: &mut Vec<String>, path: &str, file_lines: Vec<String>)
    ensures
        line_views(final(acc)@) == line_views(old(acc)@) + file_block(
            path@,
            line_views(file_lines@),
        ),
{
    let ghost block = file_block(path@, line_views(file_lines@));
    let mut file_lines = file_lines;
    if file_lines.len() > 0 {
        acc.push(format_file_header(path));
    }
    acc.append(&mut file_lines);
    proof {
        assert(line_views(acc@) =~= line_views(old(acc)@) + block);
    }
}

} // verus!
