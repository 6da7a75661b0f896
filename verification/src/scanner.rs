//! The scanner: program text to opcodes.
//!
//! A token is the marker `sv` followed by a run of one to eight `o`. The
//! length of the run selects the opcode. Everything else is commentary.
use crate::syntax::OpCode;
use vstd::prelude::*;

verus! {

/// Whether the marker `sv` stands at position `at` of `text`.
pub open spec fn marker_at(text: Seq<char>, at: int) -> bool {
    &&& 0 <= at
    &&& at + 1 < text.len()
    &&& text[at] == 's'
    &&& text[at + 1] == 'v'
}

/// The number of consecutive `o` in `text` from position `from` on.
pub open spec fn run_length(text: Seq<char>, from: int) -> nat
    decreases text.len() - from,
{
    if 0 <= from < text.len() && text[from] == 'o' {
        1 + run_length(text, from + 1)
    } else {
        0
    }
}

/// The opcode selected by a run of `count` letters, if any.
pub open spec fn opcode_for_run(count: nat) -> Option<OpCode> {
    if count == 1 {
        Some(OpCode::Increment)
    } else if count == 2 {
        Some(OpCode::Decrement)
    } else if count == 3 {
        Some(OpCode::LoopBegin)
    } else if count == 4 {
        Some(OpCode::LoopEnd)
    } else if count == 5 {
        Some(OpCode::DecrementPointer)
    } else if count == 6 {
        Some(OpCode::IncrementPointer)
    } else if count == 7 {
        Some(OpCode::Write)
    } else if count == 8 {
        Some(OpCode::Read)
    } else {
        None
    }
}

/// Whether a recognized token starts at position `at`: the marker, followed
/// by a run whose full length names an opcode.
pub open spec fn token_at(text: Seq<char>, at: int) -> bool {
    marker_at(text, at) && opcode_for_run(run_length(text, at + 2)) is Some
}

/// The opcodes read from `text` when scanning resumes at position `from`.
///
/// At a marker the whole run behind it is consumed, whether or not it names
/// an opcode. Anywhere else one character is skipped.
pub open spec fn scan_from(text: Seq<char>, from: int) -> Seq<OpCode>
    decreases text.len() - from,
{
    if from < 0 || from >= text.len() {
        Seq::empty()
    } else if marker_at(text, from) {
        let run = run_length(text, from + 2);
        proof {
            lemma_run_length_bound(text, from + 2);
        }
        let rest = scan_from(text, from + 2 + run);
        match opcode_for_run(run) {
            Some(op) => seq![op] + rest,
            None => rest,
        }
    } else {
        scan_from(text, from + 1)
    }
}

/// The opcodes of a whole text.
pub open spec fn scan(text: Seq<char>) -> Seq<OpCode> {
    scan_from(text, 0)
}

/// A run never reaches past the end of the text.
pub proof fn lemma_run_length_bound(text: Seq<char>, from: int)
    requires
        0 <= from <= text.len(),
    ensures
        from + run_length(text, from) <= text.len(),
    decreases text.len() - from,
{
    if from < text.len() && text[from] == 'o' {
        lemma_run_length_bound(text, from + 1);
    }
}

/// A run consists of the letter `o`, and what follows it is none.
pub proof fn lemma_run_is_letters(text: Seq<char>, from: int)
    requires
        0 <= from <= text.len(),
    ensures
        from + run_length(text, from) <= text.len(),
        forall|j: int| from <= j < from + run_length(text, from) ==> text[j] == 'o',
        from + run_length(text, from) < text.len() ==> text[from + run_length(text, from)] != 'o',
    decreases text.len() - from,
{
    if from < text.len() && text[from] == 'o' {
        lemma_run_is_letters(text, from + 1);
    }
}

/// A run is as long as the letters that are there, where a character that is
/// no `o`, or the end of the text, follows them.
pub proof fn lemma_run_length_exact(text: Seq<char>, from: int, count: nat)
    requires
        0 <= from,
        from + count <= text.len(),
        forall|j: int| from <= j < from + count ==> text[j] == 'o',
        from + count < text.len() ==> text[from + count] != 'o',
    ensures
        run_length(text, from) == count,
    decreases count,
{
    if count > 0 {
        lemma_run_length_exact(text, from + 1, (count - 1) as nat);
    }
}

/// Text without a recognized token holds no opcode, from whatever position
/// the scan starts.
pub proof fn lemma_scan_from_without_tokens(text: Seq<char>, from: int)
    requires
        forall|at: int| 0 <= at < text.len() ==> !token_at(text, at),
    ensures
        scan_from(text, from) == Seq::<OpCode>::empty(),
    decreases text.len() - from,
{
    if 0 <= from < text.len() {
        if marker_at(text, from) {
            assert(!token_at(text, from));
            lemma_run_length_bound(text, from + 2);
            lemma_scan_from_without_tokens(text, from + 2 + run_length(text, from + 2));
        } else {
            lemma_scan_from_without_tokens(text, from + 1);
        }
    }
}

/// Text without a recognized token scans to the empty opcode sequence.
pub proof fn lemma_scan_without_tokens(text: Seq<char>)
    requires
        forall|at: int| 0 <= at < text.len() ==> !token_at(text, at),
    ensures
        scan(text) == Seq::<OpCode>::empty(),
{
    lemma_scan_from_without_tokens(text, 0);
}

/// Text in which the marker never occurs scans to the empty opcode sequence.
pub proof fn lemma_scan_without_markers(text: Seq<char>)
    requires
        forall|at: int| 0 <= at < text.len() ==> !marker_at(text, at),
    ensures
        scan(text) == Seq::<OpCode>::empty(),
{
    lemma_scan_without_tokens(text);
}

/// The characters of a string, in order.
fn characters(source: &str) -> (chars: Vec<char>)
    ensures
        chars@ == source@,
{
    let mut chars: Vec<char> = Vec::new();
    for c in it: source.chars()
        invariant
            chars@ == it.seq().take(it.index()),
    {
        chars.push(c);
    }
    chars
}

/// The opcode selected by a run of `count` letters, if any.
fn select(count: usize) -> (op: Option<OpCode>)
    ensures
        op == opcode_for_run(count as nat),
{
    if count == 1 {
        Some(OpCode::Increment)
    } else if count == 2 {
        Some(OpCode::Decrement)
    } else if count == 3 {
        Some(OpCode::LoopBegin)
    } else if count == 4 {
        Some(OpCode::LoopEnd)
    } else if count == 5 {
        Some(OpCode::DecrementPointer)
    } else if count == 6 {
        Some(OpCode::IncrementPointer)
    } else if count == 7 {
        Some(OpCode::Write)
    } else if count == 8 {
        Some(OpCode::Read)
    } else {
        None
    }
}

/// Scans program text into its opcodes. Never fails: text that is no token
/// is commentary.
pub fn lex(source: String) -> (operations: Vec<OpCode>)
    ensures
        operations@ == scan(source@),
{
    let mut operations: Vec<OpCode> = Vec::new();
    let chars = characters(source.as_str());
    let mut i: usize = 0;
    while i < chars.len()
        invariant
            chars@ == source@,
            i <= chars.len(),
            operations@ + scan_from(chars@, i as int) == scan(chars@),
        decreases chars.len() - i,
    {
        if i + 1 < chars.len() && chars[i] == 's' && chars[i + 1] == 'v' {
            let mut o_count: usize = 0;
            let mut j: usize = i + 2;
            while j < chars.len() && chars[j] == 'o'
                invariant
                    i + 2 <= j <= chars.len(),
                    j == i + 2 + o_count,
                    o_count + run_length(chars@, j as int) == run_length(chars@, i + 2),
                decreases chars.len() - j,
            {
                o_count += 1;
                j += 1;
            }
            if let Some(op) = select(o_count) {
                operations.push(op);
            }
            i = j;
        } else {
            i += 1;
        }
    }
    operations
}

} // verus!
