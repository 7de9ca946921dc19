//! Token estimation and pack rendering.

use vstd::prelude::*;

verus! {

use crate::paths::{ext_or_empty_spec, get_extension};
use crate::text::eq_str;
use vstd::string::StringExecFns;
use vstd::string::StringSliceAdditionalSpecFns;

/// The estimated token weight of a text: one token per four bytes of
/// UTF-8, and never less than one.
pub open spec fn estimate_tokens_spec(content: Seq<char>) -> int {
    let t = (vstd::utf8::encode_utf8(content).len() as usize) as int / 4;
    if t < 1 {
        1
    } else {
        t
    }
}

/// Estimate tokens using a simple approximation (1 token is about 4 bytes).
pub fn estimate_tokens(content: &str) -> (r: usize)
    ensures
        r == estimate_tokens_spec(content@),
{
    let t = content.len() / 4;
    if t < 1 {
        1
    } else {
        t
    }
}

/// The fenced-block language tag of a file extension; unknown
/// extensions fall back to `text`.
pub open spec fn lang_spec(ext: Seq<char>) -> Seq<char> {
    if ext == "ts"@ || ext == "tsx"@ {
        "typescript"@
    } else if ext == "js"@ || ext == "jsx"@ {
        "javascript"@
    } else if ext == "rs"@ {
        "rust"@
    } else if ext == "py"@ {
        "python"@
    } else if ext == "go"@ {
        "go"@
    } else if ext == "md"@ {
        "markdown"@
    } else if ext == "json"@ {
        "json"@
    } else if ext == "css"@ {
        "css"@
    } else if ext == "html"@ {
        "html"@
    } else if ext == "toml"@ {
        "toml"@
    } else if ext == "yaml"@ || ext == "yml"@ {
        "yaml"@
    } else if ext == "sh"@ || ext == "bash"@ {
        "bash"@
    } else {
        "text"@
    }
}

/// The rendered form of one file: in markdown mode a fenced block with
/// a language tag, a path-comment line and the raw content; otherwise
/// the path-comment line and the raw content alone.
pub open spec fn header_spec(path: Seq<char>, content: Seq<char>, format: Seq<char>) -> Seq<
    char,
> {
    if format == "markdown"@ {
        "```"@ + lang_spec(ext_or_empty_spec(path)) + "\n// "@ + path + "\n"@ + content + "\n```"@
    } else {
        "// "@ + path + "\n"@ + content
    }
}

/// The language tag of a path's extension.
fn lang_for(ext: &str) -> (r: &'static str)
    ensures
        r@ == lang_spec(ext@),
{
    if eq_str(ext, "ts") || eq_str(ext, "tsx") {
        "typescript"
    } else if eq_str(ext, "js") || eq_str(ext, "jsx") {
        "javascript"
    } else if eq_str(ext, "rs") {
        "rust"
    } else if eq_str(ext, "py") {
        "python"
    } else if eq_str(ext, "go") {
        "go"
    } else if eq_str(ext, "md") {
        "markdown"
    } else if eq_str(ext, "json") {
        "json"
    } else if eq_str(ext, "css") {
        "css"
    } else if eq_str(ext, "html") {
        "html"
    } else if eq_str(ext, "toml") {
        "toml"
    } else if eq_str(ext, "yaml") || eq_str(ext, "yml") {
        "yaml"
    } else if eq_str(ext, "sh") || eq_str(ext, "bash") {
        "bash"
    } else {
        "text"
    }
}

/// Render one file for a pack, in the requested textual format.
pub fn format_file_header(path: &str, content: &str, format: &str) -> (r: String)
    ensures
        r@ == header_spec(path@, content@, format@),
{
    if eq_str(format, "markdown") {
        let ext = get_extension(path);
        let lang = lang_for(ext);
        let mut out = String::from_str("```");
        out.append(lang);
        out.append("\n// ");
        out.append(path);
        out.append("\n");
        out.append(content);
        out.append("\n```");
        out
    } else {
        let mut out = String::from_str("// ");
        out.append(path);
        out.append("\n");
        out.append(content);
        out
    }
}

/// The final textual form of a pack's joined content.
pub fn wrap_pack(content: &str) -> (r: String)
    ensures
        r@ == content@,
{
    String::from_str(content)
}

} // verus!
