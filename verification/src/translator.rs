//! The translator: the conventional notation, one symbol for each
//! operation, rewritten into the marker notation that the scanner reads.
use crate::scanner::{
    lemma_run_is_letters, lemma_run_length_exact, marker_at, opcode_for_run, run_length, scan,
    scan_from, token_at,
};
use crate::structurer::{lemma_structure_unique, structures_to, ParseError};
use crate::syntax::{Node, OpCode};
use vstd::prelude::*;

verus! {

/// The length of the run that stands for a symbol of the conventional
/// notation, if the character is one.
pub open spec fn symbol_run(symbol: char) -> Option<nat> {
    if symbol == '+' {
        Some(1)
    } else if symbol == '-' {
        Some(2)
    } else if symbol == '[' {
        Some(3)
    } else if symbol == ']' {
        Some(4)
    } else if symbol == '<' {
        Some(5)
    } else if symbol == '>' {
        Some(6)
    } else if symbol == '.' {
        Some(7)
    } else if symbol == ',' {
        Some(8)
    } else {
        None
    }
}

/// The token with a run of the given length: the marker and that many `o`.
pub open spec fn token(run: nat) -> Seq<char> {
    seq!['s', 'v'] + Seq::new(run, |i: int| 'o')
}

/// What one character is rewritten to: its token for a symbol, itself
/// otherwise.
pub open spec fn rewritten(symbol: char) -> Seq<char> {
    match symbol_run(symbol) {
        Some(run) => token(run),
        None => seq![symbol],
    }
}

/// The translation of a text: each character rewritten, in order.
pub open spec fn translation(text: Seq<char>) -> Seq<char>
    decreases text.len(),
{
    if text.len() == 0 {
        Seq::empty()
    } else {
        translation(text.drop_last()) + rewritten(text.last())
    }
}

/// The opcode that a symbol of the conventional notation stands for.
pub open spec fn symbol_opcode(symbol: char) -> Option<OpCode> {
    match symbol_run(symbol) {
        Some(run) => opcode_for_run(run),
        None => None,
    }
}

/// The opcodes that a text in the conventional notation stands for, from
/// position `from` on: those of its symbols, in order.
pub open spec fn symbol_opcodes_from(text: Seq<char>, from: int) -> Seq<OpCode>
    decreases text.len() - from,
{
    if from < 0 || from >= text.len() {
        Seq::empty()
    } else {
        let rest = symbol_opcodes_from(text, from + 1);
        match symbol_opcode(text[from]) {
            Some(op) => seq![op] + rest,
            None => rest,
        }
    }
}

/// The opcodes that a text in the conventional notation stands for.
pub open spec fn symbol_opcodes(text: Seq<char>) -> Seq<OpCode> {
    symbol_opcodes_from(text, 0)
}

/// Whether a text in the conventional notation keeps its meaning when it is
/// translated: no `o` follows a symbol directly, where it would lengthen
/// the run of the symbol's token, and the text itself holds no token, which
/// the scanner would read as one more operation.
pub open spec fn translatable(text: Seq<char>) -> bool {
    &&& forall|i: int|
        0 <= i && i + 1 < text.len() && symbol_run(#[trigger] text[i]) is Some ==> text[i + 1]
            != 'o'
    &&& forall|i: int| 0 <= i < text.len() ==> !token_at(text, i)
}

/// The translation of two texts joined is their translations joined.
pub proof fn lemma_translation_concat(first: Seq<char>, second: Seq<char>)
    ensures
        translation(first + second) == translation(first) + translation(second),
    decreases second.len(),
{
    if second.len() > 0 {
        lemma_translation_concat(first, second.drop_last());
        assert((first + second).drop_last() =~= first + second.drop_last());
    }
}

/// Where the rewriting of the character at position `at` starts in the
/// translation of `text`.
pub open spec fn offset(text: Seq<char>, at: int) -> int {
    translation(text.take(at)).len() as int
}

/// The translation of `text` holds the rewriting of each character at its
/// offset, and the next character's rewriting right behind it.
pub proof fn lemma_translation_holds_rewriting(text: Seq<char>, at: int)
    requires
        0 <= at < text.len(),
    ensures
        offset(text, at + 1) == offset(text, at) + rewritten(text[at]).len(),
        offset(text, at + 1) <= translation(text).len(),
        offset(text, text.len() as int) == translation(text).len(),
        forall|j: int|
            0 <= j < rewritten(text[at]).len() ==> #[trigger] translation(text)[offset(text, at)
                + j] == rewritten(text[at])[j],
{
    let head = text.take(at + 1);
    assert(head.drop_last() =~= text.take(at));
    assert(text =~= head + text.skip(at + 1));
    lemma_translation_concat(head, text.skip(at + 1));
    assert(text.take(text.len() as int) =~= text);
}

/// A stretch of text without symbols is translated to itself, and stands for
/// no opcode.
pub proof fn lemma_plain_stretch(text: Seq<char>, from: int, count: nat)
    requires
        0 <= from,
        from + count <= text.len(),
        forall|j: int| from <= j < from + count ==> symbol_run(text[j]) is None,
    ensures
        offset(text, from + count) == offset(text, from) + count,
        forall|j: int|
            0 <= j < count ==> #[trigger] translation(text)[offset(text, from) + j] == text[from
                + j],
        symbol_opcodes_from(text, from) == symbol_opcodes_from(text, from + count),
    decreases count,
{
    if count > 0 {
        let last = from + count - 1;
        lemma_plain_stretch(text, from, (count - 1) as nat);
        lemma_translation_holds_rewriting(text, last);
        assert(translation(text)[offset(text, last) + 0] == rewritten(text[last])[0]);
    }
}

/// Scanning the translation of a translatable text from the offset of a
/// position gives the opcodes of the symbols from that position on.
pub proof fn lemma_scan_translation_from(text: Seq<char>, at: int)
    requires
        translatable(text),
        0 <= at <= text.len(),
    ensures
        scan_from(translation(text), offset(text, at)) == symbol_opcodes_from(text, at),
    decreases text.len() - at,
{
    let translated = translation(text);
    let start = offset(text, at);
    if at == text.len() {
        assert(text.take(at) =~= text);
    } else {
        lemma_translation_holds_rewriting(text, at);
        assert(translated[start + 0] == rewritten(text[at])[0]);
        let next = offset(text, at + 1);
        if at + 1 < text.len() {
            lemma_translation_holds_rewriting(text, at + 1);
            assert(translated[next + 0] == rewritten(text[at + 1])[0]);
        }
        match symbol_run(text[at]) {
            Some(run) => {
                // the token of the symbol stands here, and its run ends with it
                assert forall|j: int| start + 2 <= j < start + 2 + run implies translated[j]
                    == 'o' by {
                    assert(translated[start + (j - start)] == rewritten(text[at])[j - start]);
                }
                lemma_run_length_exact(translated, start + 2, run);
                lemma_scan_translation_from(text, at + 1);
            },
            None => {
                if marker_at(translated, start) {
                    // a marker of the text itself: it and its run are kept as
                    // they are, and the run names no opcode
                    let run = run_length(text, at + 2);
                    lemma_run_is_letters(text, at + 2);
                    let behind = at + 2 + run;
                    assert(!token_at(text, at));
                    lemma_plain_stretch(text, at, 2 + run);
                    assert forall|j: int| start + 2 <= j < start + 2 + run implies translated[j]
                        == 'o' by {
                        assert(translated[start + (j - start)] == text[at + (j - start)]);
                    }
                    if behind < text.len() {
                        lemma_translation_holds_rewriting(text, behind);
                        assert(translated[offset(text, behind) + 0] == rewritten(text[behind])[0]);
                    }
                    lemma_run_length_exact(translated, start + 2, run);
                    lemma_scan_translation_from(text, behind);
                } else {
                    lemma_scan_translation_from(text, at + 1);
                }
            },
        }
    }
}

/// Translating a translatable text and scanning the result gives the opcodes
/// that its symbols stand for.
pub proof fn lemma_translate_then_scan(text: Seq<char>)
    requires
        translatable(text),
    ensures
        scan(translation(text)) == symbol_opcodes(text),
{
    lemma_scan_translation_from(text, 0);
}

/// A translated text and a text written in the marker notation by hand
/// that holds the same operations are structured alike: both to the same
/// tree, or both to the same error.
pub proof fn lemma_translated_structures_like_written(
    text: Seq<char>,
    written: Seq<char>,
    translated_outcome: Result<Seq<Node>, ParseError>,
    written_outcome: Result<Seq<Node>, ParseError>,
)
    requires
        translatable(text),
        scan(written) == symbol_opcodes(text),
        structures_to(scan(translation(text)), translated_outcome),
        structures_to(scan(written), written_outcome),
    ensures
        translated_outcome == written_outcome,
{
    lemma_translate_then_scan(text);
    lemma_structure_unique(scan(written), translated_outcome, written_outcome);
}

/// The token of a symbol of the conventional notation, if the character is
/// one.
fn token_for(symbol: char) -> (text: Option<&'static str>)
    ensures
        match text {
            Some(text) => symbol_run(symbol) is Some && text@ == token(symbol_run(symbol)->0),
            None => symbol_run(symbol) is None,
        },
{
    let text = if symbol == '+' {
        "svo"
    } else if symbol == '-' {
        "svoo"
    } else if symbol == '[' {
        "svooo"
    } else if symbol == ']' {
        "svoooo"
    } else if symbol == '<' {
        "svooooo"
    } else if symbol == '>' {
        "svoooooo"
    } else if symbol == '.' {
        "svooooooo"
    } else if symbol == ',' {
        "svoooooooo"
    } else {
        return None;
    };
    proof {
        reveal_strlit("svo");
        reveal_strlit("svoo");
        reveal_strlit("svooo");
        reveal_strlit("svoooo");
        reveal_strlit("svooooo");
        reveal_strlit("svoooooo");
        reveal_strlit("svooooooo");
        reveal_strlit("svoooooooo");
    }
    Some(text)
}

/// Appends one character to a string.
///
/// Calls `String::push`, which is documented to append the given character
/// to the end of the string. The contract says so and is not proved.
#[verifier::external_body]
fn push_char(text: &mut String, character: char)
    ensures
        final(text)@ == old(text)@.push(character),
{
    text.push(character);
}

/// Translates a text in the conventional notation into the marker
/// notation. Each of the eight symbols becomes its token. Every other
/// character is kept as it is.
pub fn translate(source: &str) -> (result: String)
    ensures
        result@ == translation(source@),
{
    let mut result = String::new();
    for symbol in it: source.chars()
        invariant
            it.seq() == source@,
            result@ == translation(source@.take(it.index())),
    {
        proof {
            let next = source@.take(it.index() + 1);
            assert(next.drop_last() =~= source@.take(it.index()));
        }
        match token_for(symbol) {
            Some(text) => {
                result.append(text);
            },
            None => {
                push_char(&mut result, symbol);
            },
        }
    }
    proof {
        assert(source@.take(source@.len() as int) =~= source@);
    }
    result
}

} // verus!
