//! Content types of files, and the application launching that this build
//! of the Files application offers.

use vstd::prelude::*;
use vstd::string::StringSliceAdditionalSpecFns;
use vstd::utf8::valid_utf8;

use crate::path::{extension, extension_exec, lower_extension_is};
use crate::strings::is_utf8;
use crate::text::{bytes_eq, contains_byte, lower, to_ascii_lower};

verus! {

/// An application that can open a file.
#[derive(Clone, Debug, PartialEq, Eq)]
pub struct Handler {
    pub bundle_id: String,
    pub name: String,
}

/// The content type that a lower-case extension names, if it names one.
pub open spec fn type_for_extension(e: Seq<u8>) -> Option<Seq<char>> {
    if e == "json".spec_bytes() {
        Some("application/json"@)
    } else if e == "toml".spec_bytes() {
        Some("application/toml"@)
    } else if e == "xml".spec_bytes() {
        Some("application/xml"@)
    } else if e == "csv".spec_bytes() {
        Some("text/csv"@)
    } else if e == "md".spec_bytes() || e == "markdown".spec_bytes() {
        Some("text/markdown"@)
    } else if e == "c".spec_bytes() || e == "h".spec_bytes() {
        Some("text/x-c"@)
    } else if e == "cc".spec_bytes() || e == "cpp".spec_bytes() || e == "cxx".spec_bytes() || e
        == "hh".spec_bytes() || e == "hpp".spec_bytes() {
        Some("text/x-c++"@)
    } else if e == "rs".spec_bytes() {
        Some("text/x-rust"@)
    } else if e == "sh".spec_bytes() {
        Some("text/x-shellscript"@)
    } else if e == "yaml".spec_bytes() || e == "yml".spec_bytes() {
        Some("text/yaml"@)
    } else if e == "txt".spec_bytes() || e == "text".spec_bytes() || e == "log".spec_bytes() || e
        == "ini".spec_bytes() || e == "conf".spec_bytes() || e == "cfg".spec_bytes() {
        Some("text/plain"@)
    } else {
        None
    }
}

/// The content type known from a path's extension, if any.
pub open spec fn known_type(path: Seq<u8>) -> Option<Seq<char>> {
    match extension(path) {
        Some(e) => type_for_extension(lower(e)),
        None => type_for_extension(Seq::empty()),
    }
}

/// A sample of a file looks like text when it holds no NUL byte and is
/// valid UTF-8.
pub open spec fn looks_like_text(sample: Seq<u8>) -> bool {
    !sample.contains(0u8) && valid_utf8(sample)
}

/// The content type of a file: the one its extension names, otherwise
/// plain text when the start of the file could be read and looks like
/// text, otherwise an octet stream.
pub open spec fn content_type_of(path: Seq<u8>, sample: Option<Seq<u8>>) -> Seq<char> {
    match known_type(path) {
        Some(t) => t,
        None => match sample {
            Some(s) => if looks_like_text(s) {
                "text/plain"@
            } else {
                "application/octet-stream"@
            },
            None => "application/octet-stream"@,
        },
    }
}

fn type_for_extension_exec(e: &[u8]) -> (r: Option<&'static str>)
    ensures
        match r {
            Some(t) => type_for_extension(e@) == Some(t@),
            None => type_for_extension(e@) is None,
        },
{
    if bytes_eq(e, "json".as_bytes()) {
        Some("application/json")
    } else if bytes_eq(e, "toml".as_bytes()) {
        Some("application/toml")
    } else if bytes_eq(e, "xml".as_bytes()) {
        Some("application/xml")
    } else if bytes_eq(e, "csv".as_bytes()) {
        Some("text/csv")
    } else if bytes_eq(e, "md".as_bytes()) || bytes_eq(e, "markdown".as_bytes()) {
        Some("text/markdown")
    } else if bytes_eq(e, "c".as_bytes()) || bytes_eq(e, "h".as_bytes()) {
        Some("text/x-c")
    } else if bytes_eq(e, "cc".as_bytes()) || bytes_eq(e, "cpp".as_bytes()) || bytes_eq(
        e,
        "cxx".as_bytes(),
    ) || bytes_eq(e, "hh".as_bytes()) || bytes_eq(e, "hpp".as_bytes()) {
        Some("text/x-c++")
    } else if bytes_eq(e, "rs".as_bytes()) {
        Some("text/x-rust")
    } else if bytes_eq(e, "sh".as_bytes()) {
        Some("text/x-shellscript")
    } else if bytes_eq(e, "yaml".as_bytes()) || bytes_eq(e, "yml".as_bytes()) {
        Some("text/yaml")
    } else if bytes_eq(e, "txt".as_bytes()) || bytes_eq(e, "text".as_bytes()) || bytes_eq(
        e,
        "log".as_bytes(),
    ) || bytes_eq(e, "ini".as_bytes()) || bytes_eq(e, "conf".as_bytes()) || bytes_eq(
        e,
        "cfg".as_bytes(),
    ) {
        Some("text/plain")
    } else {
        None
    }
}

/// The content type named by a path's extension, if any.
pub fn known_content_type(path: &[u8]) -> (r: Option<&'static str>)
    ensures
        match r {
            Some(t) => known_type(path@) == Some(t@),
            None => known_type(path@) is None,
        },
{
    match extension_exec(path) {
        Some(e) => {
            let lowered = to_ascii_lower(e.as_slice());
            type_for_extension_exec(lowered.as_slice())
        },
        None => {
            let empty: Vec<u8> = Vec::new();
            type_for_extension_exec(empty.as_slice())
        },
    }
}

/// Whether a sample of a file looks like text.
pub fn looks_like_utf8_text(sample: &[u8]) -> (r: bool)
    ensures
        r == looks_like_text(sample@),
{
    !contains_byte(sample, 0) && is_utf8(sample)
}

/// The content type of the file at `path`; `sample` is the start of the
/// file as one read of it gave, or `None` when it could not be read.
pub fn content_type(path: &[u8], sample: Option<&[u8]>) -> (r: &'static str)
    ensures
        r@ == content_type_of(path@, match sample {
            Some(s) => Some(s@),
            None => None,
        }),
{
    match known_content_type(path) {
        Some(t) => t,
        None => match sample {
            Some(s) => if looks_like_utf8_text(s) {
                "text/plain"
            } else {
                "application/octet-stream"
            },
            None => "application/octet-stream",
        },
    }
}

/// Opening a file with another application, which this build does not
/// offer: it always fails with the same message.
pub fn open(path: &[u8], bundle_id: Option<&str>) -> (r: Result<(), String>)
    ensures
        r matches Err(e) && e@ == "Application launching is only available on mochiOS"@,
{
    Err("Application launching is only available on mochiOS".to_owned())
}

/// The applications that can open a file, of which this build knows none.
pub fn handlers(path: &[u8]) -> (r: Result<Vec<Handler>, String>)
    ensures
        r matches Ok(v) && v@.len() == 0,
{
    Ok(Vec::new())
}

/// Changing the default application of a file type, which this build does
/// not offer: it always fails with the same message.
pub fn set_default(path: &[u8], bundle_id: &str) -> (r: Result<(), String>)
    ensures
        r matches Err(e) && e@ == "Default applications can only be changed on mochiOS"@,
{
    Err("Default applications can only be changed on mochiOS".to_owned())
}

proof fn lemma_type_words()
    ensures
        "json".spec_bytes() == seq![106u8, 115u8, 111u8, 110u8],
        "toml".spec_bytes() == seq![116u8, 111u8, 109u8, 108u8],
        "xml".spec_bytes() == seq![120u8, 109u8, 108u8],
        "csv".spec_bytes() == seq![99u8, 115u8, 118u8],
        "md".spec_bytes() == seq![109u8, 100u8],
        "markdown".spec_bytes() == seq![109u8, 97u8, 114u8, 107u8, 100u8, 111u8, 119u8, 110u8],
        "c".spec_bytes() == seq![99u8],
        "h".spec_bytes() == seq![104u8],
        "cc".spec_bytes() == seq![99u8, 99u8],
        "cpp".spec_bytes() == seq![99u8, 112u8, 112u8],
        "cxx".spec_bytes() == seq![99u8, 120u8, 120u8],
        "hh".spec_bytes() == seq![104u8, 104u8],
        "hpp".spec_bytes() == seq![104u8, 112u8, 112u8],
        "rs".spec_bytes() == seq![114u8, 115u8],
        "sh".spec_bytes() == seq![115u8, 104u8],
        "yaml".spec_bytes() == seq![121u8, 97u8, 109u8, 108u8],
        "yml".spec_bytes() == seq![121u8, 109u8, 108u8],
        "txt".spec_bytes() == seq![116u8, 120u8, 116u8],
        "text".spec_bytes() == seq![116u8, 101u8, 120u8, 116u8],
        "log".spec_bytes() == seq![108u8, 111u8, 103u8],
        "ini".spec_bytes() == seq![105u8, 110u8, 105u8],
        "conf".spec_bytes() == seq![99u8, 111u8, 110u8, 102u8],
        "cfg".spec_bytes() == seq![99u8, 102u8, 103u8],
{
    broadcast use vstd::string::is_ascii_spec_bytes;
    reveal_strlit("json");
    assert(vstd::string::is_ascii("json"));
    assert("json".spec_bytes() =~= seq![106u8, 115u8, 111u8, 110u8]);
    reveal_strlit("toml");
    assert(vstd::string::is_ascii("toml"));
    assert("toml".spec_bytes() =~= seq![116u8, 111u8, 109u8, 108u8]);
    reveal_strlit("xml");
    assert(vstd::string::is_ascii("xml"));
    assert("xml".spec_bytes() =~= seq![120u8, 109u8, 108u8]);
    reveal_strlit("csv");
    assert(vstd::string::is_ascii("csv"));
    assert("csv".spec_bytes() =~= seq![99u8, 115u8, 118u8]);
    reveal_strlit("md");
    assert(vstd::string::is_ascii("md"));
    assert("md".spec_bytes() =~= seq![109u8, 100u8]);
    reveal_strlit("markdown");
    assert(vstd::string::is_ascii("markdown"));
    assert("markdown".spec_bytes() =~= seq![109u8, 97u8, 114u8, 107u8, 100u8, 111u8, 119u8, 110u8]);
    reveal_strlit("c");
    assert(vstd::string::is_ascii("c"));
    assert("c".spec_bytes() =~= seq![99u8]);
    reveal_strlit("h");
    assert(vstd::string::is_ascii("h"));
    assert("h".spec_bytes() =~= seq![104u8]);
    reveal_strlit("cc");
    assert(vstd::string::is_ascii("cc"));
    assert("cc".spec_bytes() =~= seq![99u8, 99u8]);
    reveal_strlit("cpp");
    assert(vstd::string::is_ascii("cpp"));
    assert("cpp".spec_bytes() =~= seq![99u8, 112u8, 112u8]);
    reveal_strlit("cxx");
    assert(vstd::string::is_ascii("cxx"));
    assert("cxx".spec_bytes() =~= seq![99u8, 120u8, 120u8]);
    reveal_strlit("hh");
    assert(vstd::string::is_ascii("hh"));
    assert("hh".spec_bytes() =~= seq![104u8, 104u8]);
    reveal_strlit("hpp");
    assert(vstd::string::is_ascii("hpp"));
    assert("hpp".spec_bytes() =~= seq![104u8, 112u8, 112u8]);
    reveal_strlit("rs");
    assert(vstd::string::is_ascii("rs"));
    assert("rs".spec_bytes() =~= seq![114u8, 115u8]);
    reveal_strlit("sh");
    assert(vstd::string::is_ascii("sh"));
    assert("sh".spec_bytes() =~= seq![115u8, 104u8]);
    reveal_strlit("yaml");
    assert(vstd::string::is_ascii("yaml"));
    assert("yaml".spec_bytes() =~= seq![121u8, 97u8, 109u8, 108u8]);
    reveal_strlit("yml");
    assert(vstd::string::is_ascii("yml"));
    assert("yml".spec_bytes() =~= seq![121u8, 109u8, 108u8]);
    reveal_strlit("txt");
    assert(vstd::string::is_ascii("txt"));
    assert("txt".spec_bytes() =~= seq![116u8, 120u8, 116u8]);
    reveal_strlit("text");
    assert(vstd::string::is_ascii("text"));
    assert("text".spec_bytes() =~= seq![116u8, 101u8, 120u8, 116u8]);
    reveal_strlit("log");
    assert(vstd::string::is_ascii("log"));
    assert("log".spec_bytes() =~= seq![108u8, 111u8, 103u8]);
    reveal_strlit("ini");
    assert(vstd::string::is_ascii("ini"));
    assert("ini".spec_bytes() =~= seq![105u8, 110u8, 105u8]);
    reveal_strlit("conf");
    assert(vstd::string::is_ascii("conf"));
    assert("conf".spec_bytes() =~= seq![99u8, 111u8, 110u8, 102u8]);
    reveal_strlit("cfg");
    assert(vstd::string::is_ascii("cfg"));
    assert("cfg".spec_bytes() =~= seq![99u8, 102u8, 103u8]);
}

/// The content type of every file: each known extension, in any case,
/// names its type whatever the file holds; a file with another extension,
/// or none, is plain text when its start could be read, holds no NUL byte
/// and is valid UTF-8, and an octet stream otherwise.
#[verifier::spinoff_prover]
#[verifier::rlimit(100)]
proof fn lemma_table_0(e: Seq<u8>)
    requires
        e == seq![106u8, 115u8, 111u8, 110u8],
    ensures
        type_for_extension(e) == Some("application/json"@),
{
    lemma_type_words();
    if e == seq![106u8, 115u8, 111u8, 110u8] {
        assert(e.len() == 4);
    }
}

#[verifier::spinoff_prover]
#[verifier::rlimit(100)]
proof fn lemma_table_1(e: Seq<u8>)
    requires
        e == seq![116u8, 111u8, 109u8, 108u8],
    ensures
        type_for_extension(e) == Some("application/toml"@),
{
    lemma_type_words();
    assert("json".spec_bytes().len() == 4);
    if e == seq![116u8, 111u8, 109u8, 108u8] {
        assert(e.len() == 4);
        assert(e[0] != "json".spec_bytes()[0]);
    }
}

#[verifier::spinoff_prover]
#[verifier::rlimit(100)]
proof fn lemma_table_2(e: Seq<u8>)
    requires
        e == seq![120u8, 109u8, 108u8],
    ensures
        type_for_extension(e) == Some("application/xml"@),
{
    lemma_type_words();
    assert("json".spec_bytes().len() == 4);
    assert("toml".spec_bytes().len() == 4);
    if e == seq![120u8, 109u8, 108u8] {
        assert(e.len() == 3);
    }
}

#[verifier::spinoff_prover]
#[verifier::rlimit(100)]
proof fn lemma_table_3(e: Seq<u8>)
    requires
        e == seq![99u8, 115u8, 118u8],
    ensures
        type_for_extension(e) == Some("text/csv"@),
{
    lemma_type_words();
    assert("json".spec_bytes().len() == 4);
    assert("toml".spec_bytes().len() == 4);
    assert("xml".spec_bytes().len() == 3);
    if e == seq![99u8, 115u8, 118u8] {
        assert(e.len() == 3);
        assert(e[0] != "xml".spec_bytes()[0]);
    }
}

#[verifier::spinoff_prover]
#[verifier::rlimit(100)]
proof fn lemma_table_4(e: Seq<u8>)
    requires
        e == seq![109u8, 100u8] || e == seq![109u8, 97u8, 114u8, 107u8, 100u8, 111u8, 119u8, 110u8],
    ensures
        type_for_extension(e) == Some("text/markdown"@),
{
    lemma_type_words();
    assert("json".spec_bytes().len() == 4);
    assert("toml".spec_bytes().len() == 4);
    assert("xml".spec_bytes().len() == 3);
    assert("csv".spec_bytes().len() == 3);
    if e == seq![109u8, 100u8] {
        assert(e.len() == 2);
    }
    if e == seq![109u8, 97u8, 114u8, 107u8, 100u8, 111u8, 119u8, 110u8] {
        assert(e.len() == 8);
    }
}

#[verifier::spinoff_prover]
#[verifier::rlimit(100)]
proof fn lemma_table_5(e: Seq<u8>)
    requires
        e == seq![99u8] || e == seq![104u8],
    ensures
        type_for_extension(e) == Some("text/x-c"@),
{
    lemma_type_words();
    assert("json".spec_bytes().len() == 4);
    assert("toml".spec_bytes().len() == 4);
    assert("xml".spec_bytes().len() == 3);
    assert("csv".spec_bytes().len() == 3);
    assert("md".spec_bytes().len() == 2);
    assert("markdown".spec_bytes().len() == 8);
    if e == seq![99u8] {
        assert(e.len() == 1);
    }
    if e == seq![104u8] {
        assert(e.len() == 1);
    }
}

#[verifier::spinoff_prover]
#[verifier::rlimit(100)]
proof fn lemma_table_6(e: Seq<u8>)
    requires
        e == seq![99u8, 99u8] || e == seq![99u8, 112u8, 112u8] || e == seq![99u8, 120u8, 120u8] || e == seq![104u8, 104u8] || e == seq![104u8, 112u8, 112u8],
    ensures
        type_for_extension(e) == Some("text/x-c++"@),
{
    lemma_type_words();
    assert("json".spec_bytes().len() == 4);
    assert("toml".spec_bytes().len() == 4);
    assert("xml".spec_bytes().len() == 3);
    assert("csv".spec_bytes().len() == 3);
    assert("md".spec_bytes().len() == 2);
    assert("markdown".spec_bytes().len() == 8);
    assert("c".spec_bytes().len() == 1);
    assert("h".spec_bytes().len() == 1);
    if e == seq![99u8, 99u8] {
        assert(e.len() == 2);
        assert(e[0] != "md".spec_bytes()[0]);
    }
    if e == seq![99u8, 112u8, 112u8] {
        assert(e.len() == 3);
        assert(e[0] != "xml".spec_bytes()[0]);
        assert(e[1] != "csv".spec_bytes()[1]);
    }
    if e == seq![99u8, 120u8, 120u8] {
        assert(e.len() == 3);
        assert(e[0] != "xml".spec_bytes()[0]);
        assert(e[1] != "csv".spec_bytes()[1]);
    }
    if e == seq![104u8, 104u8] {
        assert(e.len() == 2);
        assert(e[0] != "md".spec_bytes()[0]);
    }
    if e == seq![104u8, 112u8, 112u8] {
        assert(e.len() == 3);
        assert(e[0] != "xml".spec_bytes()[0]);
        assert(e[0] != "csv".spec_bytes()[0]);
    }
}

#[verifier::spinoff_prover]
#[verifier::rlimit(100)]
proof fn lemma_table_7(e: Seq<u8>)
    requires
        e == seq![114u8, 115u8],
    ensures
        type_for_extension(e) == Some("text/x-rust"@),
{
    lemma_type_words();
    assert("json".spec_bytes().len() == 4);
    assert("toml".spec_bytes().len() == 4);
    assert("xml".spec_bytes().len() == 3);
    assert("csv".spec_bytes().len() == 3);
    assert("md".spec_bytes().len() == 2);
    assert("markdown".spec_bytes().len() == 8);
    assert("c".spec_bytes().len() == 1);
    assert("h".spec_bytes().len() == 1);
    assert("cc".spec_bytes().len() == 2);
    assert("cpp".spec_bytes().len() == 3);
    assert("cxx".spec_bytes().len() == 3);
    assert("hh".spec_bytes().len() == 2);
    assert("hpp".spec_bytes().len() == 3);
    if e == seq![114u8, 115u8] {
        assert(e.len() == 2);
        assert(e[0] != "md".spec_bytes()[0]);
        assert(e[0] != "cc".spec_bytes()[0]);
        assert(e[0] != "hh".spec_bytes()[0]);
    }
}

#[verifier::spinoff_prover]
#[verifier::rlimit(100)]
proof fn lemma_table_8(e: Seq<u8>)
    requires
        e == seq![115u8, 104u8],
    ensures
        type_for_extension(e) == Some("text/x-shellscript"@),
{
    lemma_type_words();
    assert("json".spec_bytes().len() == 4);
    assert("toml".spec_bytes().len() == 4);
    assert("xml".spec_bytes().len() == 3);
    assert("csv".spec_bytes().len() == 3);
    assert("md".spec_bytes().len() == 2);
    assert("markdown".spec_bytes().len() == 8);
    assert("c".spec_bytes().len() == 1);
    assert("h".spec_bytes().len() == 1);
    assert("cc".spec_bytes().len() == 2);
    assert("cpp".spec_bytes().len() == 3);
    assert("cxx".spec_bytes().len() == 3);
    assert("hh".spec_bytes().len() == 2);
    assert("hpp".spec_bytes().len() == 3);
    assert("rs".spec_bytes().len() == 2);
    if e == seq![115u8, 104u8] {
        assert(e.len() == 2);
        assert(e[0] != "md".spec_bytes()[0]);
        assert(e[0] != "cc".spec_bytes()[0]);
        assert(e[0] != "hh".spec_bytes()[0]);
        assert(e[0] != "rs".spec_bytes()[0]);
    }
}

#[verifier::spinoff_prover]
#[verifier::rlimit(100)]
proof fn lemma_table_9(e: Seq<u8>)
    requires
        e == seq![121u8, 97u8, 109u8, 108u8] || e == seq![121u8, 109u8, 108u8],
    ensures
        type_for_extension(e) == Some("text/yaml"@),
{
    lemma_type_words();
    assert("json".spec_bytes().len() == 4);
    assert("toml".spec_bytes().len() == 4);
    assert("xml".spec_bytes().len() == 3);
    assert("csv".spec_bytes().len() == 3);
    assert("md".spec_bytes().len() == 2);
    assert("markdown".spec_bytes().len() == 8);
    assert("c".spec_bytes().len() == 1);
    assert("h".spec_bytes().len() == 1);
    assert("cc".spec_bytes().len() == 2);
    assert("cpp".spec_bytes().len() == 3);
    assert("cxx".spec_bytes().len() == 3);
    assert("hh".spec_bytes().len() == 2);
    assert("hpp".spec_bytes().len() == 3);
    assert("rs".spec_bytes().len() == 2);
    assert("sh".spec_bytes().len() == 2);
    if e == seq![121u8, 97u8, 109u8, 108u8] {
        assert(e.len() == 4);
        assert(e[0] != "json".spec_bytes()[0]);
        assert(e[0] != "toml".spec_bytes()[0]);
    }
    if e == seq![121u8, 109u8, 108u8] {
        assert(e.len() == 3);
        assert(e[0] != "xml".spec_bytes()[0]);
        assert(e[0] != "csv".spec_bytes()[0]);
        assert(e[0] != "cpp".spec_bytes()[0]);
        assert(e[0] != "cxx".spec_bytes()[0]);
        assert(e[0] != "hpp".spec_bytes()[0]);
    }
}

#[verifier::spinoff_prover]
#[verifier::rlimit(100)]
proof fn lemma_table_10(e: Seq<u8>)
    requires
        e == seq![116u8, 120u8, 116u8] || e == seq![116u8, 101u8, 120u8, 116u8] || e == seq![108u8, 111u8, 103u8] || e == seq![105u8, 110u8, 105u8] || e == seq![99u8, 111u8, 110u8, 102u8] || e == seq![99u8, 102u8, 103u8],
    ensures
        type_for_extension(e) == Some("text/plain"@),
{
    lemma_type_words();
    assert("json".spec_bytes().len() == 4);
    assert("toml".spec_bytes().len() == 4);
    assert("xml".spec_bytes().len() == 3);
    assert("csv".spec_bytes().len() == 3);
    assert("md".spec_bytes().len() == 2);
    assert("markdown".spec_bytes().len() == 8);
    assert("c".spec_bytes().len() == 1);
    assert("h".spec_bytes().len() == 1);
    assert("cc".spec_bytes().len() == 2);
    assert("cpp".spec_bytes().len() == 3);
    assert("cxx".spec_bytes().len() == 3);
    assert("hh".spec_bytes().len() == 2);
    assert("hpp".spec_bytes().len() == 3);
    assert("rs".spec_bytes().len() == 2);
    assert("sh".spec_bytes().len() == 2);
    assert("yaml".spec_bytes().len() == 4);
    assert("yml".spec_bytes().len() == 3);
    if e == seq![116u8, 120u8, 116u8] {
        assert(e.len() == 3);
        assert(e[0] != "xml".spec_bytes()[0]);
        assert(e[0] != "csv".spec_bytes()[0]);
        assert(e[0] != "cpp".spec_bytes()[0]);
        assert(e[0] != "cxx".spec_bytes()[0]);
        assert(e[0] != "hpp".spec_bytes()[0]);
        assert(e[0] != "yml".spec_bytes()[0]);
    }
    if e == seq![116u8, 101u8, 120u8, 116u8] {
        assert(e.len() == 4);
        assert(e[0] != "json".spec_bytes()[0]);
        assert(e[1] != "toml".spec_bytes()[1]);
        assert(e[0] != "yaml".spec_bytes()[0]);
    }
    if e == seq![108u8, 111u8, 103u8] {
        assert(e.len() == 3);
        assert(e[0] != "xml".spec_bytes()[0]);
        assert(e[0] != "csv".spec_bytes()[0]);
        assert(e[0] != "cpp".spec_bytes()[0]);
        assert(e[0] != "cxx".spec_bytes()[0]);
        assert(e[0] != "hpp".spec_bytes()[0]);
        assert(e[0] != "yml".spec_bytes()[0]);
    }
    if e == seq![105u8, 110u8, 105u8] {
        assert(e.len() == 3);
        assert(e[0] != "xml".spec_bytes()[0]);
        assert(e[0] != "csv".spec_bytes()[0]);
        assert(e[0] != "cpp".spec_bytes()[0]);
        assert(e[0] != "cxx".spec_bytes()[0]);
        assert(e[0] != "hpp".spec_bytes()[0]);
        assert(e[0] != "yml".spec_bytes()[0]);
    }
    if e == seq![99u8, 111u8, 110u8, 102u8] {
        assert(e.len() == 4);
        assert(e[0] != "json".spec_bytes()[0]);
        assert(e[0] != "toml".spec_bytes()[0]);
        assert(e[0] != "yaml".spec_bytes()[0]);
    }
    if e == seq![99u8, 102u8, 103u8] {
        assert(e.len() == 3);
        assert(e[0] != "xml".spec_bytes()[0]);
        assert(e[1] != "csv".spec_bytes()[1]);
        assert(e[1] != "cpp".spec_bytes()[1]);
        assert(e[1] != "cxx".spec_bytes()[1]);
        assert(e[0] != "hpp".spec_bytes()[0]);
        assert(e[0] != "yml".spec_bytes()[0]);
    }
}

#[verifier::spinoff_prover]
#[verifier::rlimit(80)]
pub proof fn lemma_types_by_extension(path: Seq<u8>, sample: Option<Seq<u8>>)
    ensures
        lower_extension_is(path, seq![106u8, 115u8, 111u8, 110u8]) ==> content_type_of(path, sample) == "application/json"@,
        lower_extension_is(path, seq![116u8, 111u8, 109u8, 108u8]) ==> content_type_of(path, sample) == "application/toml"@,
        lower_extension_is(path, seq![120u8, 109u8, 108u8]) ==> content_type_of(path, sample) == "application/xml"@,
        lower_extension_is(path, seq![99u8, 115u8, 118u8]) ==> content_type_of(path, sample) == "text/csv"@,
        lower_extension_is(path, seq![109u8, 100u8]) || lower_extension_is(path, seq![109u8, 97u8, 114u8, 107u8, 100u8, 111u8, 119u8, 110u8]) ==> content_type_of(path, sample) == "text/markdown"@,
        lower_extension_is(path, seq![99u8]) || lower_extension_is(path, seq![104u8]) ==> content_type_of(path, sample) == "text/x-c"@,
        lower_extension_is(path, seq![99u8, 99u8]) || lower_extension_is(path, seq![99u8, 112u8, 112u8]) || lower_extension_is(path, seq![99u8, 120u8, 120u8]) || lower_extension_is(path, seq![104u8, 104u8]) || lower_extension_is(path, seq![104u8, 112u8, 112u8]) ==> content_type_of(path, sample) == "text/x-c++"@,
        lower_extension_is(path, seq![114u8, 115u8]) ==> content_type_of(path, sample) == "text/x-rust"@,
        lower_extension_is(path, seq![115u8, 104u8]) ==> content_type_of(path, sample) == "text/x-shellscript"@,
        lower_extension_is(path, seq![121u8, 97u8, 109u8, 108u8]) || lower_extension_is(path, seq![121u8, 109u8, 108u8]) ==> content_type_of(path, sample) == "text/yaml"@,
        lower_extension_is(path, seq![116u8, 120u8, 116u8]) || lower_extension_is(path, seq![116u8, 101u8, 120u8, 116u8]) || lower_extension_is(path, seq![108u8, 111u8, 103u8]) || lower_extension_is(path, seq![105u8, 110u8, 105u8]) || lower_extension_is(path, seq![99u8, 111u8, 110u8, 102u8]) || lower_extension_is(path, seq![99u8, 102u8, 103u8]) ==> content_type_of(path, sample) == "text/plain"@,
        !(lower_extension_is(path, seq![106u8, 115u8, 111u8, 110u8]) || lower_extension_is(path, seq![116u8, 111u8, 109u8, 108u8]) || lower_extension_is(path, seq![120u8, 109u8, 108u8]) || lower_extension_is(path, seq![99u8, 115u8, 118u8]) || lower_extension_is(path, seq![109u8, 100u8]) || lower_extension_is(path, seq![109u8, 97u8, 114u8, 107u8, 100u8, 111u8, 119u8, 110u8]) || lower_extension_is(path, seq![99u8]) || lower_extension_is(path, seq![104u8]) || lower_extension_is(path, seq![99u8, 99u8]) || lower_extension_is(path, seq![99u8, 112u8, 112u8]) || lower_extension_is(path, seq![99u8, 120u8, 120u8]) || lower_extension_is(path, seq![104u8, 104u8]) || lower_extension_is(path, seq![104u8, 112u8, 112u8]) || lower_extension_is(path, seq![114u8, 115u8]) || lower_extension_is(path, seq![115u8, 104u8]) || lower_extension_is(path, seq![121u8, 97u8, 109u8, 108u8]) || lower_extension_is(path, seq![121u8, 109u8, 108u8]) || lower_extension_is(path, seq![116u8, 120u8, 116u8]) || lower_extension_is(path, seq![116u8, 101u8, 120u8, 116u8]) || lower_extension_is(path, seq![108u8, 111u8, 103u8]) || lower_extension_is(path, seq![105u8, 110u8, 105u8]) || lower_extension_is(path, seq![99u8, 111u8, 110u8, 102u8]) || lower_extension_is(path, seq![99u8, 102u8, 103u8])) ==> content_type_of(path, sample) == (match sample {
            Some(s) => if !s.contains(0u8) && valid_utf8(s) {
                "text/plain"@
            } else {
                "application/octet-stream"@
            },
            None => "application/octet-stream"@,
        }),
{
    lemma_type_words();
    assert(lower(Seq::<u8>::empty()) =~= Seq::<u8>::empty());
    let e = match extension(path) {
        Some(x) => lower(x),
        None => Seq::<u8>::empty(),
    };
    assert(known_type(path) == type_for_extension(e));
    if e == seq![106u8, 115u8, 111u8, 110u8] {
        lemma_table_0(e);
    }
    if e == seq![116u8, 111u8, 109u8, 108u8] {
        lemma_table_1(e);
    }
    if e == seq![120u8, 109u8, 108u8] {
        lemma_table_2(e);
    }
    if e == seq![99u8, 115u8, 118u8] {
        lemma_table_3(e);
    }
    if e == seq![109u8, 100u8] || e == seq![109u8, 97u8, 114u8, 107u8, 100u8, 111u8, 119u8, 110u8] {
        lemma_table_4(e);
    }
    if e == seq![99u8] || e == seq![104u8] {
        lemma_table_5(e);
    }
    if e == seq![99u8, 99u8] || e == seq![99u8, 112u8, 112u8] || e == seq![99u8, 120u8, 120u8] || e == seq![104u8, 104u8] || e == seq![104u8, 112u8, 112u8] {
        lemma_table_6(e);
    }
    if e == seq![114u8, 115u8] {
        lemma_table_7(e);
    }
    if e == seq![115u8, 104u8] {
        lemma_table_8(e);
    }
    if e == seq![121u8, 97u8, 109u8, 108u8] || e == seq![121u8, 109u8, 108u8] {
        lemma_table_9(e);
    }
    if e == seq![116u8, 120u8, 116u8] || e == seq![116u8, 101u8, 120u8, 116u8] || e == seq![108u8, 111u8, 103u8] || e == seq![105u8, 110u8, 105u8] || e == seq![99u8, 111u8, 110u8, 102u8] || e == seq![99u8, 102u8, 103u8] {
        lemma_table_10(e);
    }
}

} // verus!
