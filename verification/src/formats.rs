//! The formats documents are read from and written to, and how they are
//! told from file extensions.

use vstd::prelude::*;
use crate::text::{eq_ignore_ascii_case, chars_of, chars_eq_ignore_ascii_case};

verus! {

/// The format a document is read from.
#[derive(Debug, Clone, Copy, PartialEq, Eq)]
pub enum InputFormat {
    Docx,
    Markdown,
}

/// The format a document is written to.
#[derive(Debug, Clone, Copy, PartialEq, Eq)]
pub enum OutputFormat {
    Text,
    Markdown,
}

/// The extension names Markdown (`md` or `markdown`, any ASCII case).
pub open spec fn is_markdown_extension(ext: Seq<char>) -> bool {
    eq_ignore_ascii_case(ext, "md"@) || eq_ignore_ascii_case(ext, "markdown"@)
}

/// The input format for a file's extension: Markdown for `md` and
/// `markdown`; DOCX for `docx` and for anything that cannot be told,
/// including no extension.
pub open spec fn input_format_for(ext: Option<Seq<char>>) -> InputFormat {
    match ext {
        Some(e) => if is_markdown_extension(e) { InputFormat::Markdown } else { InputFormat::Docx },
        None => InputFormat::Docx,
    }
}

/// The output format for an output file's extension: Markdown for `md`
/// and `markdown`, text otherwise.
pub open spec fn output_format_for(ext: Option<Seq<char>>) -> OutputFormat {
    match ext {
        Some(e) => if is_markdown_extension(e) { OutputFormat::Markdown } else { OutputFormat::Text },
        None => OutputFormat::Text,
    }
}

pub open spec fn opt_str_view(ext: Option<&str>) -> Option<Seq<char>> {
    match ext {
        Some(e) => Some(e@),
        None => None,
    }
}

fn names_markdown(ext: &str) -> (r: bool)
    ensures
        r == is_markdown_extension(ext@),
{
    let e = chars_of(ext);
    let md = chars_of("md");
    let markdown = chars_of("markdown");
    chars_eq_ignore_ascii_case(e.as_slice(), md.as_slice()) || chars_eq_ignore_ascii_case(e.as_slice(), markdown.as_slice())
}

impl InputFormat {
    /// The format to read a file in, told from its extension (`None`
    /// where it has none or it is not text).
    pub fn from_extension(ext: Option<&str>) -> (f: InputFormat)
        ensures
            f == input_format_for(opt_str_view(ext)),
    {
        match ext {
            Some(e) => if names_markdown(e) { InputFormat::Markdown } else { InputFormat::Docx },
            None => InputFormat::Docx,
        }
    }
}

impl OutputFormat {
    /// The extension of files written in this format.
    pub fn extension(self) -> (e: &'static str)
        ensures
            e@ == match self {
                OutputFormat::Text => "txt"@,
                OutputFormat::Markdown => "md"@,
            },
    {
        match self {
            OutputFormat::Text => "txt",
            OutputFormat::Markdown => "md",
        }
    }

    /// The format to write, told from the output file's extension.
    pub fn from_output_extension(ext: Option<&str>) -> (f: OutputFormat)
        ensures
            f == output_format_for(opt_str_view(ext)),
    {
        match ext {
            Some(e) => if names_markdown(e) { OutputFormat::Markdown } else { OutputFormat::Text },
            None => OutputFormat::Text,
        }
    }
}

/// The format a dump is written in: the one asked for, else the one the
/// output file's extension names.
pub fn dump_format(requested: Option<OutputFormat>, output_ext: Option<&str>) -> (f: OutputFormat)
    ensures
        f == match requested {
            Some(r) => r,
            None => output_format_for(opt_str_view(output_ext)),
        },
{
    match requested {
        Some(r) => r,
        None => OutputFormat::from_output_extension(output_ext),
    }
}

/// The format a document is read in: the one asked for, else the one its
/// extension names.
pub fn read_format(requested: Option<InputFormat>, ext: Option<&str>) -> (f: InputFormat)
    ensures
        f == match requested {
            Some(r) => r,
            None => input_format_for(opt_str_view(ext)),
        },
{
    match requested {
        Some(r) => r,
        None => InputFormat::from_extension(ext),
    }
}

} // verus!
