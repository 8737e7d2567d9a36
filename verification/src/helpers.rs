//! Helper utilities for agent operation: input sanitisation, prompt escaping,
//! JSON extraction, snippet vetting and command splitting.

use vstd::prelude::*;

use crate::text::{
    chars_to_string, contains_chars, contains_sub, find_char_at, find_first_wsp, find_spec,
    first_wsp_spec, lower_chars, lower_seq, replace_chars, replace_spec, rfind_char_at, rfind_spec,
    slice_chars, to_chars, trim_chars, trim_spec,
};

verus! {

/// The text of `s`, trimmed, with the markers `\nUser:`, `\nSystem:` and
/// `\nConversation memory` turned into their quoted forms.
pub open spec fn sanitize_spec(s: Seq<char>) -> Seq<char> {
    replace_spec(
        replace_spec(
            replace_spec(trim_spec(s), "\nUser:"@, "\nUser (quoted):"@),
            "\nSystem:"@,
            "\nSystem (quoted):"@,
        ),
        "\nConversation memory"@,
        "\nConversation memory (quoted)"@,
    )
}

/// Sanitizes user input to prevent prompt injection: trims it and quotes the
/// role markers that would let content masquerade as conversation structure.
pub fn sanitize_input(s: &str) -> (r: String)
    ensures
        r@ == sanitize_spec(s@),
{
    proof {
        reveal_strlit("\nUser:");
        reveal_strlit("\nSystem:");
        reveal_strlit("\nConversation memory");
    }
    let trimmed = trim_chars(&to_chars(s));
    let step1 = replace_chars(&trimmed, &to_chars("\nUser:"), &to_chars("\nUser (quoted):"));
    let step2 = replace_chars(&step1, &to_chars("\nSystem:"), &to_chars("\nSystem (quoted):"));
    let step3 = replace_chars(
        &step2,
        &to_chars("\nConversation memory"),
        &to_chars("\nConversation memory (quoted)"),
    );
    chars_to_string(&step3)
}

/// The text of `s` with backticks turned into single quotes and the `\nUser:`
/// and `\nSystem:` markers turned into their quoted forms.
pub open spec fn escape_spec(s: Seq<char>) -> Seq<char> {
    replace_spec(
        replace_spec(replace_spec(s, "`"@, "'"@), "\nUser:"@, "\nUser (quoted):"@),
        "\nSystem:"@,
        "\nSystem (quoted):"@,
    )
}

/// Escapes content for safe inclusion in prompts.
pub fn escape_prompt_content(s: &str) -> (r: String)
    ensures
        r@ == escape_spec(s@),
{
    proof {
        reveal_strlit("`");
        reveal_strlit("\nUser:");
        reveal_strlit("\nSystem:");
    }
    let chars = to_chars(s);
    let step1 = replace_chars(&chars, &to_chars("`"), &to_chars("'"));
    let step2 = replace_chars(&step1, &to_chars("\nUser:"), &to_chars("\nUser (quoted):"));
    let step3 = replace_chars(&step2, &to_chars("\nSystem:"), &to_chars("\nSystem (quoted):"));
    chars_to_string(&step3)
}

/// The JSON-looking part of `s`: the span from the first `{` to the last `}`
/// (or `[` to `]`), after trimming; `None` when no such span exists.
pub open spec fn extract_json_spec(s: Seq<char>) -> Option<Seq<char>> {
    let t = trim_spec(s);
    if find_spec(t, '{') is Some && rfind_spec(t, '}') is Some && rfind_spec(t, '}')->Some_0
        > find_spec(t, '{')->Some_0 {
        Some(t.subrange(find_spec(t, '{')->Some_0, rfind_spec(t, '}')->Some_0 + 1))
    } else if find_spec(t, '[') is Some && rfind_spec(t, ']') is Some && rfind_spec(t, ']')->Some_0
        > find_spec(t, '[')->Some_0 {
        Some(t.subrange(find_spec(t, '[')->Some_0, rfind_spec(t, ']')->Some_0 + 1))
    } else if (t.len() > 0 && t[0] == '{' && t.last() == '}') || (t.len() > 0 && t[0] == '['
        && t.last() == ']') {
        Some(t)
    } else {
        None
    }
}

/// Extracts JSON from a string that may contain additional text.
pub fn extract_json(s: &str) -> (r: Option<String>)
    ensures
        match r {
            Some(j) => extract_json_spec(s@) == Some(j@),
            None => extract_json_spec(s@) is None,
        },
{
    let t = trim_chars(&to_chars(s));
    let tn = t.len();
    if let Some(start) = find_char_at(&t, '{') {
        if let Some(end) = rfind_char_at(&t, '}') {
            if end > start {
                proof {
                    crate::text::lemma_find_spec(t@, '{');
                    crate::text::lemma_rfind_spec(t@, '}');
                }
                assert(end < tn);
                let piece = slice_chars(&t, start, end + 1);
                return Some(chars_to_string(&piece));
            }
        }
    }
    if let Some(start) = find_char_at(&t, '[') {
        if let Some(end) = rfind_char_at(&t, ']') {
            if end > start {
                proof {
                    crate::text::lemma_find_spec(t@, '[');
                    crate::text::lemma_rfind_spec(t@, ']');
                }
                assert(end < tn);
                let piece = slice_chars(&t, start, end + 1);
                return Some(chars_to_string(&piece));
            }
        }
    }
    let n = tn;
    if n > 0 {
        let first = t[0];
        let last = t[n - 1];
        if (first == '{' && last == '}') || (first == '[' && last == ']') {
            return Some(chars_to_string(&t));
        }
    }
    None
}

/// The snippet is non-empty after trimming and its lower-cased text holds
/// none of the destructive patterns.
pub open spec fn snippet_spec(code: Seq<char>) -> bool {
    let t = trim_spec(code);
    let l = lower_seq(t);
    t.len() > 0 && !contains_sub(l, lower_seq("rm -rf"@)) && !contains_sub(
        l,
        lower_seq("format c:"@),
    ) && !contains_sub(l, lower_seq("del /f"@)) && !contains_sub(l, lower_seq("DROP DATABASE"@))
        && !contains_sub(l, lower_seq("DROP TABLE"@))
}

/// Validates that a code snippet is safe to execute: rejects empty input and
/// a handful of obviously destructive patterns, case-insensitively.
pub fn is_valid_snippet(code: &str) -> (r: bool)
    ensures
        r == snippet_spec(code@),
{
    let t = trim_chars(&to_chars(code));
    if t.len() == 0 {
        return false;
    }
    let l = lower_chars(&t);
    if contains_chars(&l, &lower_chars(&to_chars("rm -rf"))) {
        return false;
    }
    if contains_chars(&l, &lower_chars(&to_chars("format c:"))) {
        return false;
    }
    if contains_chars(&l, &lower_chars(&to_chars("del /f"))) {
        return false;
    }
    if contains_chars(&l, &lower_chars(&to_chars("DROP DATABASE"))) {
        return false;
    }
    if contains_chars(&l, &lower_chars(&to_chars("DROP TABLE"))) {
        return false;
    }
    true
}

/// The command name and argument text of `s`: the trimmed text up to the
/// first whitespace, and the trimmed remainder.
pub open spec fn split_command_spec(s: Seq<char>) -> (Seq<char>, Seq<char>) {
    let t = trim_spec(s);
    match first_wsp_spec(t) {
        Some(i) => (trim_spec(t.subrange(0, i)), trim_spec(t.skip(i))),
        None => (t, Seq::<char>::empty()),
    }
}

/// Splits a command string into name and arguments.
pub fn split_command(s: &str) -> (r: (String, String))
    ensures
        r.0@ == split_command_spec(s@).0,
        r.1@ == split_command_spec(s@).1,
{
    let t = trim_chars(&to_chars(s));
    match find_first_wsp(&t) {
        Some(i) => {
            proof {
                crate::text::lemma_first_wsp_spec(t@);
            }
            let name = trim_chars(&slice_chars(&t, 0, i));
            let n = t.len();
            let rest_part = slice_chars(&t, i, n);
            assert(rest_part@ =~= t@.skip(i as int));
            let rest = trim_chars(&rest_part);
            (chars_to_string(&name), chars_to_string(&rest))
        },
        None => {
            let empty: Vec<char> = Vec::new();
            assert(empty@ =~= Seq::<char>::empty());
            (chars_to_string(&t), chars_to_string(&empty))
        },
    }
}

} // verus!
