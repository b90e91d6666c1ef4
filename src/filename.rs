//! Turning a note title into a file name.
use vstd::prelude::*;
use vstd::string::{StrSliceExecFns, StringExecFns};

verus! {

/// A path separator or a character that a file system reserves between path
/// parts.
pub open spec fn is_separator(c: char) -> bool {
    c == '\\' || c == '/' || c == '|' || c == ':' || c == ';'
}

/// Punctuation and wrapping characters, which are dropped.
pub open spec fn is_dropped(c: char) -> bool {
    ||| c == '?' || c == '!' || c == '.' || c == ','
    ||| c == '(' || c == ')' || c == '[' || c == ']' || c == '<' || c == '>'
}

/// The shorthands for "and".
pub open spec fn is_and(c: char) -> bool {
    c == '&' || c == '+'
}

/// The file name so far, `acc`, after the character `c`: a separator becomes
/// one `-` unless the name already ends in `-`; punctuation and wrappers
/// vanish; `&` and `+` become `and`; anything else is kept.
pub open spec fn sanitize_step(acc: Seq<char>, c: char) -> Seq<char> {
    if is_separator(c) {
        if acc.len() > 0 && acc.last() == '-' {
            acc
        } else {
            acc.push('-')
        }
    } else if is_dropped(c) {
        acc
    } else if is_and(c) {
        acc + seq!['a', 'n', 'd']
    } else {
        acc.push(c)
    }
}

/// The file name made from the title `s`, left to right.
pub open spec fn sanitized(s: Seq<char>) -> Seq<char>
    decreases s.len(),
{
    if s.len() == 0 {
        Seq::empty()
    } else {
        sanitize_step(sanitized(s.drop_last()), s.last())
    }
}

/// Relies on `String::push`: appends one character.
#[verifier::external_body]
fn push_char(s: &mut String, c: char)
    ensures
        final(s)@ == old(s)@.push(c),
{
    s.push(c)
}

/// Makes a file name from a title: separators become single dashes,
/// punctuation and brackets are removed, and `&` or `+` becomes `and`.
/// Spaces are kept.
pub fn sanitize_filename(value: &str) -> (r: String)
    ensures
        r@ == sanitized(value@),
{
    let mut result = String::new();
    let n = value.unicode_len();
    let mut ends_with_dash = false;
    let mut i: usize = 0;
    while i < n
        invariant
            n == value@.len(),
            i <= n,
            result@ == sanitized(value@.subrange(0, i as int)),
            ends_with_dash == (result@.len() > 0 && result@.last() == '-'),
        decreases n - i,
    {
        let c = value.get_char(i);
        proof {
            assert(value@.subrange(0, i as int + 1).drop_last() =~= value@.subrange(0, i as int));
            reveal_strlit("and");
        }
        match c {
            '\\' | '/' | '|' | ':' | ';' => {
                if !ends_with_dash {
                    push_char(&mut result, '-');
                    ends_with_dash = true;
                }
            },
            '?' | '!' | '.' | ',' => {},
            '(' | ')' | '[' | ']' | '<' | '>' => {},
            '&' | '+' => {
                result.append("and");
                assert("and"@ =~= seq!['a', 'n', 'd']);
                ends_with_dash = false;
            },
            _ => {
                push_char(&mut result, c);
                ends_with_dash = c == '-';
            },
        }
        i += 1;
    }
    assert(value@.subrange(0, n as int) =~= value@);
    result
}

} // verus!
