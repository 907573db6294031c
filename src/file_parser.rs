use vstd::prelude::*;

use crate::text::same_text;

verus! {

/// The content type of a file with the ending `ext`: `text/plain` for an ending that is not
/// known.
pub open spec fn mime_type(ext: Seq<char>) -> Seq<char> {
    if ext == "html"@ {
        "text/html"@
    } else if ext == "css"@ {
        "text/css"@
    } else if ext == "json"@ {
        "application/json"@
    } else if ext == "js"@ {
        "application/javascript"@
    } else if ext == "zip"@ {
        "application/zip"@
    } else if ext == "csv"@ {
        "text/csv"@
    } else if ext == "xml"@ {
        "text/xml"@
    } else if ext == "ico"@ {
        "image/x-icon"@
    } else if ext == "jpg"@ || ext == "jpeg"@ {
        "image/jpeg"@
    } else if ext == "png"@ {
        "image/png"@
    } else if ext == "gif"@ {
        "image/gif"@
    } else if ext == "mp3"@ {
        "audio/mpeg"@
    } else if ext == "mp4"@ {
        "video/mp4"@
    } else if ext == "webm"@ {
        "video/webm"@
    } else {
        "text/plain"@
    }
}

/// Maps file endings to content types.
pub struct FileParser {}

impl FileParser {
    /// The content type for a file ending, such as `text/html` for `html`.
    pub fn get_type(file_ending: &str) -> (r: String)
        ensures
            r@ == mime_type(file_ending@),
    {
        let t = if same_text(file_ending, "html") {
            "text/html"
        } else if same_text(file_ending, "css") {
            "text/css"
        } else if same_text(file_ending, "json") {
            "application/json"
        } else if same_text(file_ending, "js") {
            "application/javascript"
        } else if same_text(file_ending, "zip") {
            "application/zip"
        } else if same_text(file_ending, "csv") {
            "text/csv"
        } else if same_text(file_ending, "xml") {
            "text/xml"
        } else if same_text(file_ending, "ico") {
            "image/x-icon"
        } else if same_text(file_ending, "jpg") || same_text(file_ending, "jpeg") {
            "image/jpeg"
        } else if same_text(file_ending, "png") {
            "image/png"
        } else if same_text(file_ending, "gif") {
            "image/gif"
        } else if same_text(file_ending, "mp3") {
            "audio/mpeg"
        } else if same_text(file_ending, "mp4") {
            "video/mp4"
        } else if same_text(file_ending, "webm") {
            "video/webm"
        } else {
            "text/plain"
        };
        t.to_owned()
    }
}

} // verus!
