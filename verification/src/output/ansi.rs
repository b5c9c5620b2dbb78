//! Colours on a terminal.

use owo_colors::OwoColorize;
use vstd::prelude::*;

use crate::text::{chars_of, string_of};

verus! {

/// A colour.
#[derive(Debug, Clone, Copy, PartialEq, Eq, Structural)]
pub enum Colour {
    Green,
    Red,
    Yellow,
    Cyan,
}

/// The character that begins an escape sequence.
pub const ESCAPE: char = '\u{1b}';

/// The digits of a colour's escape sequence.
pub open spec fn colour_code(colour: Colour) -> Seq<char> {
    match colour {
        Colour::Green => seq!['3', '2'],
        Colour::Red => seq!['3', '1'],
        Colour::Yellow => seq!['3', '3'],
        Colour::Cyan => seq!['3', '6'],
    }
}

/// An escape sequence that sets how the text behind it looks.
pub open spec fn escape(code: Seq<char>) -> Seq<char> {
    seq![ESCAPE, '['] + code + seq!['m']
}

/// `text` in bold letters of a colour.
pub open spec fn painted(text: Seq<char>, colour: Colour) -> Seq<char> {
    escape(seq!['1']) + escape(colour_code(colour)) + text + escape(seq!['3', '9']) + escape(
        seq!['0'],
    )
}

/// `OwoColorize::green` and `OwoColorize::bold`: the text between the escape
/// sequences for bold green letters and those that end them.
#[verifier::external_body]
fn bold_green(text: &str) -> (r: String)
    ensures
        r@ == painted(text@, Colour::Green),
{
    text.green().bold().to_string()
}

/// `OwoColorize::red` and `OwoColorize::bold`: the text between the escape sequences
/// for bold red letters and those that end them.
#[verifier::external_body]
fn bold_red(text: &str) -> (r: String)
    ensures
        r@ == painted(text@, Colour::Red),
{
    text.red().bold().to_string()
}

/// `OwoColorize::yellow` and `OwoColorize::bold`: the text between the escape
/// sequences for bold yellow letters and those that end them.
#[verifier::external_body]
fn bold_yellow(text: &str) -> (r: String)
    ensures
        r@ == painted(text@, Colour::Yellow),
{
    text.yellow().bold().to_string()
}

/// `OwoColorize::cyan` and `OwoColorize::bold`: the text between the escape sequences
/// for bold cyan letters and those that end them.
#[verifier::external_body]
fn bold_cyan(text: &str) -> (r: String)
    ensures
        r@ == painted(text@, Colour::Cyan),
{
    text.cyan().bold().to_string()
}

/// `text` in bold letters of a colour.
pub fn paint(text: &str, colour: Colour) -> (r: String)
    ensures
        r@ == painted(text@, colour),
{
    match colour {
        Colour::Green => bold_green(text),
        Colour::Red => bold_red(text),
        Colour::Yellow => bold_yellow(text),
        Colour::Cyan => bold_cyan(text),
    }
}

/// Whether to use colours: never where the user asked for none, else always where the
/// user asked for them, else on a terminal.
pub fn should_color(no_color: bool, forced: bool, terminal: bool) -> (r: bool)
    ensures
        r == (!no_color && (forced || terminal)),
{
    if no_color {
        return false;
    }
    if forced {
        return true;
    }
    terminal
}

// ---------- stripping ----------

/// Whether a character ends an escape sequence.
pub open spec fn is_letter(c: char) -> bool {
    'a' <= c <= 'z' || 'A' <= c <= 'Z'
}

/// What follows an escape sequence whose first character is gone: the text behind
/// the next letter.
pub open spec fn after_escape(s: Seq<char>) -> Seq<char>
    decreases s.len(),
{
    if s.len() == 0 {
        s
    } else if is_letter(s[0]) {
        s.drop_first()
    } else {
        after_escape(s.drop_first())
    }
}

/// What follows an escape sequence is not longer than the sequence with it.
proof fn lemma_after_escape_len(s: Seq<char>)
    ensures
        after_escape(s).len() <= s.len(),
    decreases s.len(),
{
    if s.len() > 0 && !is_letter(s[0]) {
        lemma_after_escape_len(s.drop_first());
    }
}

/// `s` without its escape sequences.
pub open spec fn stripped(s: Seq<char>) -> Seq<char>
    decreases s.len(),
    via stripped_ends
{
    if s.len() == 0 {
        s
    } else if s[0] == ESCAPE {
        stripped(after_escape(s.drop_first()))
    } else {
        seq![s[0]] + stripped(s.drop_first())
    }
}

#[via_fn]
proof fn stripped_ends(s: Seq<char>) {
    if s.len() > 0 {
        lemma_after_escape_len(s.drop_first());
    }
}

/// Removes the escape sequences from a text.
pub fn strip_ansi(s: &str) -> (r: String)
    ensures
        r@ == stripped(s@),
{
    let chars = chars_of(s);
    let mut out: Vec<char> = Vec::new();
    let mut i: usize = 0;
    proof {
        assert(chars@.skip(0) =~= chars@);
        assert(out@ + stripped(chars@.skip(0)) =~= stripped(chars@));
    }
    while i < chars.len()
        invariant
            i <= chars@.len(),
            out@ + stripped(chars@.skip(i as int)) == stripped(chars@),
        decreases chars@.len() - i,
    {
        let ghost rest = chars@.skip(i as int);
        let ghost was = out@;
        proof {
            assert(rest.drop_first() =~= chars@.skip(i + 1));
        }
        if chars[i] == ESCAPE {
            i += 1;
            let ghost from = i;
            let ghost start = chars@.skip(i as int);
            while i < chars.len() && !(('a' <= chars[i] && chars[i] <= 'z') || ('A' <= chars[i]
                && chars[i] <= 'Z'))
                invariant
                    from <= i <= chars@.len(),
                    after_escape(start) == after_escape(chars@.skip(i as int)),
                decreases chars@.len() - i,
            {
                proof {
                    assert(chars@.skip(i as int).drop_first() =~= chars@.skip(i + 1));
                }
                i += 1;
            }
            if i < chars.len() {
                proof {
                    assert(chars@.skip(i as int).drop_first() =~= chars@.skip(i + 1));
                }
                i += 1;
            }
        } else {
            out.push(chars[i]);
            i += 1;
            proof {
                let tail = stripped(chars@.skip(i as int));
                assert(out@ + tail =~= was + (seq![chars@[i - 1]] + tail));
            }
        }
    }
    proof {
        assert(out@ + stripped(chars@.skip(i as int)) =~= out@);
    }
    string_of(&out)
}

// ---------- laws ----------

/// Whether no escape sequence begins in the text.
pub open spec fn is_plain(s: Seq<char>) -> bool {
    !s.contains(ESCAPE)
}

/// Stripping leaves a plain text in front as it is.
pub proof fn lemma_strip_plain(s: Seq<char>, rest: Seq<char>)
    requires
        is_plain(s),
    ensures
        stripped(s + rest) == s + stripped(rest),
    decreases s.len(),
{
    if s.len() == 0 {
        assert(s + rest =~= rest);
        assert(s + stripped(rest) =~= stripped(rest));
    } else {
        let tail = s.drop_first();
        assert(s[0] != ESCAPE);
        assert(is_plain(tail)) by {
            if tail.contains(ESCAPE) {
                let i = choose|i: int| 0 <= i < tail.len() && tail[i] == ESCAPE;
                assert(s[i + 1] == ESCAPE);
            }
        }
        lemma_strip_plain(tail, rest);
        assert((s + rest).drop_first() =~= tail + rest);
        assert(stripped(s + rest) =~= seq![s[0]] + (tail + stripped(rest)));
        assert(s + stripped(rest) =~= seq![s[0]] + (tail + stripped(rest)));
    }
}

/// Stripping removes an escape sequence of one or two digits in front.
proof fn lemma_strip_escape(code: Seq<char>, rest: Seq<char>)
    requires
        1 <= code.len() <= 2,
        forall|i: int| 0 <= i < code.len() ==> !is_letter(#[trigger] code[i]),
    ensures
        stripped(escape(code) + rest) == stripped(rest),
{
    let s = escape(code) + rest;
    let a = s.drop_first();
    assert(a[0] == '[');
    let b = a.drop_first();
    assert(b[0] == code[0]);
    let c = b.drop_first();
    assert(after_escape(a) == after_escape(b));
    assert(after_escape(b) == after_escape(c));
    if code.len() == 2 {
        assert(c[0] == code[1]);
        let d = c.drop_first();
        assert(d[0] == 'm');
        assert(after_escape(c) == after_escape(d));
        assert(d.drop_first() =~= rest);
    } else {
        assert(c[0] == 'm');
        assert(c.drop_first() =~= rest);
    }
}

/// Stripping takes the colour off a plain text in front.
pub proof fn lemma_strip_painted(text: Seq<char>, colour: Colour, rest: Seq<char>)
    requires
        is_plain(text),
    ensures
        stripped(painted(text, colour) + rest) == text + stripped(rest),
{
    let end = escape(seq!['0']) + rest;
    let back = escape(seq!['3', '9']) + end;
    lemma_strip_escape(seq!['0'], rest);
    lemma_strip_escape(seq!['3', '9'], end);
    lemma_strip_plain(text, back);
    lemma_strip_escape(colour_code(colour), text + back);
    lemma_strip_escape(seq!['1'], escape(colour_code(colour)) + (text + back));
    assert(painted(text, colour) + rest =~= escape(seq!['1']) + (escape(colour_code(colour)) + (text
        + back)));
}

/// Stripping gives back the text that was painted.
pub proof fn law_strip_undoes_paint(text: Seq<char>, colour: Colour)
    requires
        is_plain(text),
    ensures
        stripped(painted(text, colour)) == text,
{
    lemma_strip_painted(text, colour, Seq::empty());
    assert(painted(text, colour) + Seq::empty() =~= painted(text, colour));
    assert(text + stripped(Seq::empty()) =~= text);
}

/// Stripping leaves a plain text as it is.
pub proof fn law_strip_keeps_plain_text(text: Seq<char>)
    requires
        is_plain(text),
    ensures
        stripped(text) == text,
{
    lemma_strip_plain(text, Seq::empty());
    assert(text + Seq::empty() =~= text);
    assert(text + stripped(Seq::empty()) =~= text);
}

/// No escape sequence is left in a stripped text.
pub proof fn law_stripped_text_is_plain(s: Seq<char>)
    ensures
        is_plain(stripped(s)),
    decreases s.len(),
{
    if s.len() > 0 {
        let rest = s.drop_first();
        if s[0] == ESCAPE {
            lemma_after_escape_len(rest);
            law_stripped_text_is_plain(after_escape(rest));
        } else {
            law_stripped_text_is_plain(rest);
            let out = seq![s[0]] + stripped(rest);
            if out.contains(ESCAPE) {
                let i = choose|i: int| 0 <= i < out.len() && out[i] == ESCAPE;
                assert(stripped(rest)[i - 1] == ESCAPE);
            }
        }
    }
}

/// An escape sequence goes from the escape character to the next letter, and all of it is
/// removed. One that has no letter goes to the end of the text.
pub proof fn law_sequences_are_removed(middle: Seq<char>, letter: char, rest: Seq<char>)
    requires
        forall|i: int|
            0 <= i < middle.len() ==> !('a' <= #[trigger] middle[i] <= 'z') && !('A' <= middle[i]
                <= 'Z'),
        'a' <= letter <= 'z' || 'A' <= letter <= 'Z',
    ensures
        stripped(seq!['\u{1b}'] + middle + seq![letter] + rest) == stripped(rest),
        stripped(seq!['\u{1b}'] + middle).len() == 0,
{
    let s = seq!['\u{1b}'] + middle + seq![letter] + rest;
    lemma_after_sequence(middle, letter, rest);
    assert(s.drop_first() =~= middle + seq![letter] + rest);
    let open = seq!['\u{1b}'] + middle;
    assert(open.drop_first() =~= middle);
    assert(stripped(after_escape(middle)).len() == 0);
}

/// What follows an escape sequence.
proof fn lemma_after_sequence(middle: Seq<char>, letter: char, rest: Seq<char>)
    requires
        forall|i: int|
            0 <= i < middle.len() ==> !('a' <= #[trigger] middle[i] <= 'z') && !('A' <= middle[i]
                <= 'Z'),
        'a' <= letter <= 'z' || 'A' <= letter <= 'Z',
    ensures
        after_escape(middle + seq![letter] + rest) == rest,
        after_escape(middle).len() == 0,
    decreases middle.len(),
{
    let s = middle + seq![letter] + rest;
    if middle.len() == 0 {
        assert(s[0] == letter);
        assert(s.drop_first() =~= rest);
    } else {
        let less = middle.drop_first();
        assert(s[0] == middle[0]);
        assert(s.drop_first() =~= less + seq![letter] + rest);
        assert forall|i: int| 0 <= i < less.len() implies !('a' <= #[trigger] less[i] <= 'z') && !('A'
            <= less[i] <= 'Z') by {
            assert(less[i] == middle[i + 1]);
        }
        lemma_after_sequence(less, letter, rest);
    }
}

} // verus!
