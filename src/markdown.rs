//! Cleaning up Markdown exported from a note-taking application.
use vstd::prelude::*;
use vstd::string::{StrSliceExecFns, StringExecFns, StringSliceAdditionalSpecFns};
use vstd::utf8::{decode_utf8, encode_utf8, is_char_boundary};

verus! {

broadcast use vstd::utf8::encode_utf8_decode_utf8;

/// `s` with every occurrence of `from` replaced by `to`, matching from the
/// left without overlap.
pub open spec fn replace_all(s: Seq<char>, from: Seq<char>, to: Seq<char>) -> Seq<char>
    decreases s.len(),
{
    if s.len() == 0 || from.len() == 0 {
        s
    } else if s.len() >= from.len() && s.subrange(0, from.len() as int) == from {
        to + replace_all(s.subrange(from.len() as int, s.len() as int), from, to)
    } else {
        seq![s[0]] + replace_all(s.subrange(1, s.len() as int), from, to)
    }
}

/// Relies on `str::replace`: every non-overlapping match of `from`, leftmost
/// first, replaced by `to`.
#[verifier::external_body]
fn replace_text(s: &str, from: &str, to: &str) -> (r: String)
    requires
        from@.len() > 0,
    ensures
        r@ == replace_all(s@, from@, to@),
{
    s.replace(from, to)
}

/// `c` has the Unicode property White_Space.
pub open spec fn is_white_space(c: char) -> bool {
    let u = c as u32;
    ||| 0x9 <= u <= 0xd
    ||| u == 0x20 || u == 0x85 || u == 0xa0 || u == 0x1680
    ||| 0x2000 <= u <= 0x200a
    ||| u == 0x2028 || u == 0x2029 || u == 0x202f || u == 0x205f || u == 0x3000
}

/// `s` without its trailing white space.
pub open spec fn trimmed_end(s: Seq<char>) -> Seq<char>
    decreases s.len(),
{
    if s.len() > 0 && is_white_space(s.last()) {
        trimmed_end(s.drop_last())
    } else {
        s
    }
}

/// Relies on `str::trim_end`: the text less its trailing characters with
/// the Unicode property White_Space.
#[verifier::external_body]
fn trim_end_text(s: &str) -> (r: &str)
    ensures
        r@ == trimmed_end(s@),
{
    s.trim_end()
}

/// Where a note whose text is `b` and whose file name is `name` (both as
/// bytes) gets a line break after its title: a note starts with `# `, then
/// the title, whose last byte matches the file name's. The break goes right
/// after the title, when that is a character boundary.
pub open spec fn title_break(b: Seq<u8>, name: Seq<u8>) -> Option<int> {
    let n = name.len() as int;
    if b.len() >= 2 && b[0] == 35 && b[1] == 32 && n > 0 && n + 1 < b.len() && b[n + 1]
        == name.last() && is_char_boundary(b, n + 2) {
        Some(n + 2)
    } else {
        None
    }
}

/// The note `content` with a line break inserted after its title.
pub open spec fn title_fixed(content: Seq<char>, name: Seq<u8>) -> Seq<char> {
    let b = encode_utf8(content);
    match title_break(b, name) {
        Some(k) => decode_utf8(b.subrange(0, k)) + seq!['\n'] + decode_utf8(
            b.subrange(k, b.len() as int),
        ),
        None => content,
    }
}

/// Puts the title of a note on a line of its own: a note starts with `# `
/// and its title, as long as the file name; a break is inserted after it.
pub fn fix_title(content: &str, file_name: &str) -> (r: String)
    ensures
        r@ == title_fixed(content@, file_name.spec_bytes()),
{
    let b = content.as_bytes();
    let name = file_name.as_bytes();
    let n = name.len();
    if b.len() >= 2 && b[0] == 35 && b[1] == 32 && n > 0 && n < b.len() - 1 && b[n + 1] == name[n
        - 1] && content.is_char_boundary(n + 2) {
        let (head, tail) = content.split_at(n + 2);
        let mut out = String::from_str(head);
        out.append("\n");
        out.append(tail);
        proof {
            reveal_strlit("\n");
            assert("\n"@ =~= seq!['\n']);
        }
        out
    } else {
        String::from_str(content)
    }
}

/// The first cleanup of an exported note: the title on its own line, every
/// doubled line break made single, and trailing white space removed.
pub fn prepare_markdown(content: &str, file_name: &str) -> (r: String)
    ensures
        r@ == trimmed_end(replace_all(title_fixed(content@, file_name.spec_bytes()), seq!['\n', '\n'], seq!['\n'])),
{
    let fixed = fix_title(content, file_name);
    proof {
        reveal_strlit("\n\n");
        reveal_strlit("\n");
        assert("\n\n"@ =~= seq!['\n', '\n']);
        assert("\n"@ =~= seq!['\n']);
    }
    let single = replace_text(fixed.as_str(), "\n\n", "\n");
    String::from_str(trim_end_text(single.as_str()))
}

/// Escapes every `(` as `\(`.
pub fn escape_left_parens(text: &str) -> (r: String)
    ensures
        r@ == replace_all(text@, seq!['('], seq!['\\', '(']),
{
    proof {
        reveal_strlit("(");
        reveal_strlit("\\(");
        assert("("@ =~= seq!['(']);
        assert("\\("@ =~= seq!['\\', '(']);
    }
    replace_text(text, "(", "\\(")
}

/// Escapes every `<` as `\<`.
pub fn escape_left_angles(text: &str) -> (r: String)
    ensures
        r@ == replace_all(text@, seq!['<'], seq!['\\', '<']),
{
    proof {
        reveal_strlit("<");
        reveal_strlit("\\<");
        assert("<"@ =~= seq!['<']);
        assert("\\<"@ =~= seq!['\\', '<']);
    }
    replace_text(text, "<", "\\<")
}

/// `c` is `lower` or its ASCII capital.
pub open spec fn is_letter(c: char, lower: char, upper: char) -> bool {
    c == lower || c == upper
}

/// A file extension marks Markdown: `md`, in any ASCII case.
pub open spec fn is_markdown_extension(e: Seq<char>) -> bool {
    e.len() == 2 && is_letter(e[0], 'm', 'M') && is_letter(e[1], 'd', 'D')
}

/// Whether a file with this extension is a Markdown file.
pub fn is_markdown_file(extension: Option<&str>) -> (r: bool)
    ensures
        r == (extension matches Some(e) && is_markdown_extension(e@)),
{
    match extension {
        Some(e) => {
            if e.unicode_len() != 2 {
                return false;
            }
            let first = e.get_char(0);
            let second = e.get_char(1);
            (first == 'm' || first == 'M') && (second == 'd' || second == 'D')
        },
        None => false,
    }
}

} // verus!
