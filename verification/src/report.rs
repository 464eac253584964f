//! Report lines and their text.

use crate::format::{format_size, size_text};
use crate::options::{is_reportable, Options};
use vstd::prelude::*;
use vstd::string::StringExecFns;

verus! {

/// One line of a report: an entry that passed the filter, with its size.
#[derive(Debug, PartialEq, Eq)]
pub struct ReportLine {
    /// The size attributed to the entry, in bytes.
    pub size: u64,
    /// The path of the entry.
    pub path: String,
}

/// Mathematical model of a [`ReportLine`].
pub struct LineView {
    pub size: u64,
    pub path: Seq<char>,
}

impl View for ReportLine {
    type V = LineView;

    open spec fn view(&self) -> LineView {
        LineView { size: self.size, path: self.path@ }
    }
}

/// The models of a sequence of lines, in the same order.
pub open spec fn line_views(lines: Seq<ReportLine>) -> Seq<LineView> {
    Seq::new(lines.len(), |i: int| lines[i]@)
}

impl LineView {
    /// The text of the line: the formatted size, one blank, the path, and a
    /// line feed.
    pub open spec fn text(self, human_readable: bool) -> Seq<char> {
        size_text(self.size, human_readable) + seq![' '] + self.path + seq!['\n']
    }
}

/// The text of a whole report: the texts of its lines, one after the other.
pub open spec fn report_text(lines: Seq<LineView>, human_readable: bool) -> Seq<char>
    decreases lines.len(),
{
    if lines.len() == 0 {
        Seq::empty()
    } else {
        report_text(lines.drop_last(), human_readable) + lines.last().text(human_readable)
    }
}

/// Appends the text of the line `(size, path)` to `output_buffer`.
fn append_line(path: &str, size: u64, human_readable: bool, output_buffer: &mut String)
    ensures
        final(output_buffer)@ == old(output_buffer)@ + (LineView { size, path: path@ }).text(
            human_readable,
        ),
{
    let size_field = format_size(size, human_readable);
    proof {
        reveal_strlit(" ");
        reveal_strlit("\n");
    }
    output_buffer.append(size_field.as_str());
    output_buffer.append(" ");
    output_buffer.append(path);
    output_buffer.append("\n");
    assert(output_buffer@ =~= old(output_buffer)@ + (LineView { size, path: path@ }).text(
        human_readable,
    ));
}

impl ReportLine {
    /// The line as text, ending in a line feed.
    pub fn render(&self, human_readable: bool) -> (text: String)
        ensures
            text@ == self@.text(human_readable),
    {
        let mut text = String::new();
        append_line(self.path.as_str(), self.size, human_readable, &mut text);
        assert(text@ =~= self@.text(human_readable));
        text
    }
}

/// Reports the entry at `path` if it passes the filter of `options`: appends
/// its line to `output_buffer` if so, and leaves the buffer as it is if not.
pub fn display_path(
    path: &str,
    size: u64,
    depth: i32,
    options: &Options,
    output_buffer: &mut String,
)
    ensures
        options.shows(depth as int, size) ==> final(output_buffer)@ == old(output_buffer)@ + (
        LineView { size, path: path@ }).text(options.human_readable),
        !options.shows(depth as int, size) ==> final(output_buffer)@ == old(output_buffer)@,
{
    if is_reportable(size, depth, options) {
        append_line(path, size, options.human_readable, output_buffer);
    }
}

/// Appends the text of every line of `lines`, in order, to `output_buffer`.
pub fn write_lines(lines: &Vec<ReportLine>, human_readable: bool, output_buffer: &mut String)
    ensures
        final(output_buffer)@ == old(output_buffer)@ + report_text(
            line_views(lines@),
            human_readable,
        ),
{
    let mut i: usize = 0;
    while i < lines.len()
        invariant
            i <= lines@.len(),
            output_buffer@ == old(output_buffer)@ + report_text(
                line_views(lines@.take(i as int)),
                human_readable,
            ),
        decreases lines@.len() - i,
    {
        let line = &lines[i];
        append_line(line.path.as_str(), line.size, human_readable, output_buffer);
        proof {
            let before = line_views(lines@.take(i as int));
            let after = line_views(lines@.take(i + 1));
            assert(after.drop_last() =~= before);
            assert(after.last() == lines@[i as int]@);
            assert(output_buffer@ =~= old(output_buffer)@ + report_text(after, human_readable));
        }
        i = i + 1;
    }
    assert(lines@.take(i as int) =~= lines@);
}

} // verus!
