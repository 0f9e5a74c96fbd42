//! The parser of a graph held in a file. Reading the file is left to the
//! caller, who hands over what came of it.

use vstd::prelude::*;
use vstd::string::StringExecFns;
use crate::graph::PrecedenceGraph;
use crate::parser::string_parser::{parses_to, StringParser, StringParserError};
use crate::parser::GraphParser;
use crate::text::{chars_of, not_whitespace, strip_whitespace, text_of};

verus! {

/// Why a file yields no precedence graph.
#[derive(Debug, Clone, PartialEq, Eq)]
pub enum FileParserError {
    /// The file `file` could not be read.
    FailedToReadFile { file: String },
    /// The text `content` of the file `file` is no graph, for the reason
    /// `cause`.
    FailedToParse { content: String, file: String, cause: StringParserError },
}

/// The parser of a graph given as a file.
pub struct FileParser {}

/// A file as the parser takes it: its name, and its text or `None` if it
/// could not be read.
pub struct FileSource<'a> {
    pub file: &'a str,
    pub content: Option<&'a str>,
}

/// The text of a file as it is parsed: without its line breaks and any other
/// whitespace.
pub open spec fn file_text(content: Seq<char>) -> Seq<char> {
    content.filter(not_whitespace())
}

/// What parsing a file comes to. A file that could not be read is reported;
/// otherwise its text without the whitespace is parsed, a failure being
/// reported together with the name and that text.
pub open spec fn file_parses_to(
    file: Seq<char>,
    content: Option<Seq<char>>,
    r: Result<PrecedenceGraph, FileParserError>,
) -> bool {
    match r {
        Ok(g) => content matches Some(c) && parses_to(file_text(c), Ok(g)),
        Err(FileParserError::FailedToReadFile { file: name }) => content is None && name@ == file,
        Err(FileParserError::FailedToParse { content: text, file: name, cause }) => {
            &&& content matches Some(c) && text@ == file_text(c)
            &&& name@ == file
            &&& parses_to(text@, Err(cause))
        },
    }
}

/// The text of a string slice, if there is one.
pub open spec fn text_view(content: Option<&str>) -> Option<Seq<char>> {
    match content {
        Some(c) => Some(c@),
        None => None,
    }
}

impl FileParser {
    /// Reads a graph from the file named `file`, of which `content` is the
    /// text, or `None` if it could not be read.
    pub fn parse_content(file: &str, content: Option<&str>) -> (r: Result<
        PrecedenceGraph,
        FileParserError,
    >)
        ensures
            file_parses_to(file@, text_view(content), r),
    {
        match content {
            None => Err(FileParserError::FailedToReadFile { file: String::from_str(file) }),
            Some(c) => {
                let chars = chars_of(c);
                let text = strip_whitespace(&chars);
                match StringParser::parse_chars(&text) {
                    Ok(g) => Ok(g),
                    Err(cause) => Err(
                        FileParserError::FailedToParse {
                            content: text_of(&text),
                            file: String::from_str(file),
                            cause,
                        },
                    ),
                }
            },
        }
    }
}

impl GraphParser for FileParser {
    type Source<'a> = FileSource<'a>;

    type Failure = FileParserError;

    open spec fn reads(source: FileSource<'_>, r: Result<PrecedenceGraph, FileParserError>) -> bool {
        file_parses_to(source.file@, text_view(source.content), r)
    }

    /// Reads a graph from a file that the caller has read.
    fn parse(source: FileSource<'_>) -> (r: Result<PrecedenceGraph, FileParserError>) {
        FileParser::parse_content(source.file, source.content)
    }
}

} // verus!
