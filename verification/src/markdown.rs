use vstd::prelude::*;

verus! {

/// The characters that Telegram's MarkdownV2 gives a meaning to, which
/// `teloxide::utils::markdown::escape` escapes.
pub open spec fn is_markdown_special(c: char) -> bool {
    ||| c == '\\'
    ||| c == '_'
    ||| c == '*'
    ||| c == '['
    ||| c == ']'
    ||| c == '('
    ||| c == ')'
    ||| c == '~'
    ||| c == '`'
    ||| c == '>'
    ||| c == '#'
    ||| c == '+'
    ||| c == '-'
    ||| c == '='
    ||| c == '|'
    ||| c == '{'
    ||| c == '}'
    ||| c == '.'
    ||| c == '!'
}

/// `s` with a backslash put before each special character.
pub open spec fn markdown_escaped(s: Seq<char>) -> Seq<char>
    decreases s.len(),
{
    if s.len() == 0 {
        Seq::empty()
    } else if is_markdown_special(s[0]) {
        seq!['\\', s[0]] + markdown_escaped(s.drop_first())
    } else {
        seq![s[0]] + markdown_escaped(s.drop_first())
    }
}

/// The text that MarkdownV2 shows for `t`, as far as escapes go: each
/// backslash stands for the character after it.
pub open spec fn markdown_unescaped(t: Seq<char>) -> Seq<char>
    decreases t.len(),
{
    if t.len() >= 2 && t[0] == '\\' {
        seq![t[1]] + markdown_unescaped(t.skip(2))
    } else if t.len() == 0 {
        Seq::empty()
    } else {
        seq![t[0]] + markdown_unescaped(t.drop_first())
    }
}

/// `teloxide::utils::markdown::escape`: the source pushes a backslash before
/// each character of `ESCAPE_CHARS` (the characters of `is_markdown_special`)
/// and copies every character, in order.
#[verifier::external_body]
pub(crate) fn escape(s: &str) -> (res: String)
    ensures
        res@ == markdown_escaped(s@),
{
    teloxide::utils::markdown::escape(s)
}

/// Escaping loses nothing: MarkdownV2 shows exactly the text that was
/// escaped.
pub proof fn lemma_escape_then_unescape(s: Seq<char>)
    ensures
        markdown_unescaped(markdown_escaped(s)) == s,
    decreases s.len(),
{
    if s.len() > 0 {
        lemma_escape_then_unescape(s.drop_first());
        let rest = markdown_escaped(s.drop_first());
        if is_markdown_special(s[0]) {
            let t = seq!['\\', s[0]] + rest;
            assert(t.skip(2) =~= rest);
            assert(s =~= seq![s[0]] + s.drop_first());
        } else {
            let t = seq![s[0]] + rest;
            assert(t.drop_first() =~= rest);
            assert(s =~= seq![s[0]] + s.drop_first());
        }
    }
}

/// After escaping, every special character stands right behind a backslash.
pub proof fn lemma_escaped_specials_follow_backslash(s: Seq<char>)
    ensures
        markdown_escaped(s).len() >= s.len(),
        forall|i: int|
            0 <= i < markdown_escaped(s).len() && is_markdown_special(
                #[trigger] markdown_escaped(s)[i],
            ) && markdown_escaped(s)[i] != '\\' ==> i > 0 && markdown_escaped(s)[i - 1] == '\\',
    decreases s.len(),
{
    if s.len() > 0 {
        lemma_escaped_specials_follow_backslash(s.drop_first());
        let rest = markdown_escaped(s.drop_first());
        let t = markdown_escaped(s);
        if is_markdown_special(s[0]) {
            assert forall|i: int|
                0 <= i < t.len() && is_markdown_special(#[trigger] t[i]) && t[i] != '\\' implies i
                > 0 && t[i - 1] == '\\' by {
                if i >= 2 {
                    assert(t[i] == rest[i - 2]);
                    assert(t[i - 1] == rest[i - 3] || i == 2);
                }
            }
        } else {
            assert forall|i: int|
                0 <= i < t.len() && is_markdown_special(#[trigger] t[i]) && t[i] != '\\' implies i
                > 0 && t[i - 1] == '\\' by {
                if i >= 1 {
                    assert(t[i] == rest[i - 1]);
                }
            }
        }
    }
}

} // verus!
