//! The commands that the dashboard asks the host to run.

use crate::task::text_of;
use crate::text::{from_chars, push_text, texts_of, to_chars};
use vstd::prelude::*;

verus! {

/// A shell script that copies its first argument to the clipboard with
/// the first of `pbcopy`, `xclip` and `xsel` that is installed, and
/// fails with a message where none is.
pub const CLIPBOARD_SCRIPT: &'static str =
    "if command -v pbcopy >/dev/null 2>&1; then printf '%s' \"$1\" | pbcopy\n\
elif command -v xclip >/dev/null 2>&1; then printf '%s' \"$1\" | xclip -selection clipboard\n\
elif command -v xsel >/dev/null 2>&1; then printf '%s' \"$1\" | xsel --clipboard\n\
else echo \"No clipboard tool (pbcopy/xclip/xsel) found\" >&2; exit 1\n\
fi";

/// The pager that shows a file where the environment names none.
pub const DEFAULT_PAGER: &'static str = "less";

/// The characters of `s`, each `'` written as `'\''`.
pub open spec fn quote_escaped(s: Seq<char>) -> Seq<char>
    decreases s.len(),
{
    if s.len() == 0 {
        Seq::empty()
    } else if s[0] == '\'' {
        "'\\''"@ + quote_escaped(s.skip(1))
    } else {
        seq![s[0]] + quote_escaped(s.skip(1))
    }
}

/// `s` as a literal in single quotes that a shell reads as `s`.
pub open spec fn single_quoted(s: Seq<char>) -> Seq<char> {
    seq!['\''] + quote_escaped(s) + seq!['\'']
}

/// The command that copies `name` to the clipboard: the script, run by
/// `sh`, with `name` as its first argument.
pub open spec fn clipboard_command(name: Seq<char>) -> Seq<Seq<char>> {
    seq!["sh"@, "-c"@, CLIPBOARD_SCRIPT@, "sh"@, name]
}

/// The command that shows `file`: the pager that the environment names,
/// or the default pager, with `file` as its argument.
pub open spec fn pager_command_of(pager: Option<Seq<char>>, file: Seq<char>) -> Seq<Seq<char>> {
    seq![
        match pager {
            Some(program) => program,
            None => DEFAULT_PAGER@,
        },
        file,
    ]
}

/// Puts `s` in single quotes for a shell.
pub fn escape_single_quoted(s: &str) -> (r: String)
    ensures
        r@ == single_quoted(s@),
{
    let chars = to_chars(s);
    let mut out: Vec<char> = Vec::new();
    out.push('\'');
    let mut i: usize = 0;
    proof {
        assert(chars@.skip(0) =~= chars@);
    }
    while i < chars.len()
        invariant
            i <= chars.len(),
            out@ + quote_escaped(chars@.skip(i as int)) == seq!['\''] + quote_escaped(chars@),
        decreases chars.len() - i,
    {
        let ghost rest = chars@.skip(i as int);
        let ghost before = out@;
        proof {
            assert(rest[0] == chars@[i as int]);
            assert(rest.skip(1) =~= chars@.skip(i + 1));
        }
        if chars[i] == '\'' {
            push_text(&mut out, "'\\''");
            proof {
                assert(before + ("'\\''"@ + quote_escaped(rest.skip(1))) =~= (before + "'\\''"@)
                    + quote_escaped(rest.skip(1)));
            }
        } else {
            out.push(chars[i]);
            proof {
                assert(before + (seq![rest[0]] + quote_escaped(rest.skip(1))) =~= before.push(
                    rest[0],
                ) + quote_escaped(rest.skip(1)));
            }
        }
        i += 1;
    }
    proof {
        assert(out@ + Seq::<char>::empty() =~= out@);
    }
    out.push('\'');
    from_chars(&out)
}

/// The command, program first, that copies `yx_name` to the clipboard
/// of the host.
pub fn copy_yak_name_to_clipboard(yx_name: &str) -> (argv: Vec<String>)
    ensures
        texts_of(argv@) == clipboard_command(yx_name@),
{
    let mut argv: Vec<String> = Vec::new();
    argv.push("sh".to_owned());
    argv.push("-c".to_owned());
    argv.push(CLIPBOARD_SCRIPT.to_owned());
    argv.push("sh".to_owned());
    argv.push(yx_name.to_owned());
    proof {
        assert(texts_of(argv@) =~= clipboard_command(yx_name@));
    }
    argv
}

/// The command, program first, that shows `file` in a pager. `pager`
/// is what the environment names as the pager, if it names one.
pub fn pager_command(pager: Option<String>, file: &str) -> (argv: Vec<String>)
    ensures
        texts_of(argv@) == pager_command_of(text_of(pager), file@),
{
    let mut argv: Vec<String> = Vec::new();
    match pager {
        Some(program) => argv.push(program),
        None => argv.push(DEFAULT_PAGER.to_owned()),
    }
    argv.push(file.to_owned());
    proof {
        assert(texts_of(argv@) =~= pager_command_of(text_of(pager), file@));
    }
    argv
}

} // verus!
