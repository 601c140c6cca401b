//! Texts that must not reach the template compiler. On three shapes of text
//! the compiler of tinytemplate does not answer with a failure but breaks
//! off: a comment that is nothing but `{#}`, a `not` in an `if` block with no
//! path behind it or with a letter beyond ASCII right behind it, and a
//! backslash at the very end of the text. What is held back here is a little
//! more than these, and said exactly by `trips_compiler`.

use vstd::prelude::*;
use vstd::string::*;

verus! {

/// The comment that is too short to have an inside.
pub open spec fn empty_comment() -> Seq<char> {
    seq!['{', '#', '}']
}

/// The word that turns the test of an `if` block round.
pub open spec fn not_word() -> Seq<char> {
    seq!['n', 'o', 't']
}

/// The word stands in the text at the place.
pub open spec fn stands_at(text: Seq<char>, at: int, word: Seq<char>) -> bool {
    0 <= at && at + word.len() <= text.len() && text.subrange(at, at + word.len()) == word
}

/// A letter beyond ASCII.
pub open spec fn beyond_ascii(c: char) -> bool {
    c as u32 >= 0x80
}

/// What may stand between a word and the end of its block: blanks and
/// control letters, a dash, and every letter beyond ASCII, some of which are
/// blanks too.
pub open spec fn is_passed_over(c: char) -> bool {
    c as u32 <= 0x20 || c == '-' || beyond_ascii(c)
}

/// The first place at or behind `from` whose letter is not passed over, or
/// the end of the text.
pub open spec fn pass_over(text: Seq<char>, from: int) -> int
    decreases text.len() - from,
{
    if 0 <= from < text.len() && is_passed_over(text[from]) {
        pass_over(text, from + 1)
    } else {
        from
    }
}

/// A `not` stands at the place with no path behind it: a letter beyond ASCII
/// follows at once, or nothing but letters that are passed over stands
/// between it and a closing brace.
pub open spec fn not_dangles(text: Seq<char>, at: int) -> bool {
    &&& stands_at(text, at, not_word())
    &&& {
        ||| at + 3 < text.len() && beyond_ascii(text[at + 3])
        ||| pass_over(text, at + 3) < text.len() && text[pass_over(text, at + 3)] == '}'
    }
}

/// The text is held back from the compiler: it ends with a backslash, or
/// `{#}` stands in it somewhere, or a `not` dangles in it somewhere.
pub open spec fn trips_compiler(text: Seq<char>) -> bool {
    ||| text.len() > 0 && text.last() == '\\'
    ||| exists|at: int| stands_at(text, at, empty_comment())
    ||| exists|at: int| not_dangles(text, at)
}

/// The letters of a text.
pub fn chars_of(text: &str) -> (r: Vec<char>)
    ensures
        r@ == text@,
{
    let mut chars: Vec<char> = Vec::new();
    for c in it: text.chars()
        invariant
            it.seq() == text@,
            chars@ == it.seq().take(it.index() as int),
    {
        proof {
            assert(it.seq().take(it.index() + 1).drop_last() =~= it.seq().take(
                it.index() as int,
            ));
        }
        chars.push(c);
    }
    proof {
        assert(text@.take(text@.len() as int) =~= text@);
    }
    chars
}

/// The first place at or behind `from` whose letter is not passed over.
fn pass_over_from(chars: &Vec<char>, from: usize) -> (r: usize)
    requires
        from <= chars.len(),
    ensures
        r == pass_over(chars@, from as int),
        from <= r <= chars.len(),
{
    let mut at: usize = from;
    while at < chars.len() && (chars[at] as u32 <= 0x20 || chars[at] == '-' || chars[at] as u32
        >= 0x80)
        invariant
            from <= at <= chars.len(),
            pass_over(chars@, from as int) == pass_over(chars@, at as int),
        decreases chars.len() - at,
    {
        at += 1;
    }
    at
}

/// Whether the text is held back from the compiler.
pub fn would_trip_compiler(text: &str) -> (r: bool)
    ensures
        r == trips_compiler(text@),
{
    let chars = chars_of(text);
    let len = chars.len();
    if len > 0 && chars[len - 1] == '\\' {
        return true;
    }
    let mut at: usize = 0;
    while at < len
        invariant
            at <= len,
            len == chars.len(),
            chars@ == text@,
            forall|before: int|
                0 <= before < at ==> !#[trigger] stands_at(chars@, before, empty_comment()),
            forall|before: int| 0 <= before < at ==> !#[trigger] not_dangles(chars@, before),
        decreases len - at,
    {
        if len - at >= 3 {
            let ghost here = chars@.subrange(at as int, at + 3);
            proof {
                assert(here[0] == chars@[at as int] && here[1] == chars@[at + 1] && here[2]
                    == chars@[at + 2]);
                assert(empty_comment()[0] == '{' && empty_comment()[1] == '#' && empty_comment()[2]
                    == '}');
                assert(not_word()[0] == 'n' && not_word()[1] == 'o' && not_word()[2] == 't');
            }
            if chars[at] == '{' && chars[at + 1] == '#' && chars[at + 2] == '}' {
                assert(here =~= empty_comment());
                assert(stands_at(text@, at as int, empty_comment()));
                return true;
            }
            if chars[at] == 'n' && chars[at + 1] == 'o' && chars[at + 2] == 't' {
                assert(here =~= not_word());
                if len - at > 3 && chars[at + 3] as u32 >= 0x80 {
                    assert(not_dangles(text@, at as int));
                    return true;
                }
                let next = pass_over_from(&chars, at + 3);
                if next < len && chars[next] == '}' {
                    assert(not_dangles(text@, at as int));
                    return true;
                }
            }
            assert(!stands_at(chars@, at as int, empty_comment()));
            assert(!not_dangles(chars@, at as int));
        } else {
            assert(empty_comment().len() == 3 && not_word().len() == 3);
        }
        at += 1;
    }
    proof {
        assert(empty_comment().len() == 3 && not_word().len() == 3);
        assert forall|place: int| !#[trigger] stands_at(text@, place, empty_comment()) by {}
        assert forall|place: int| !#[trigger] not_dangles(text@, place) by {}
    }
    false
}

} // verus!
