//! The commands that a client sends to a proposer, as a line of text.

use crate::protocol::{Entry, EntryView, Key, Value};
use crate::PaxosError;
use vstd::prelude::*;
use vstd::string::{StrSliceExecFns, StringExecFns};

verus! {

/// Whether a character separates words: the characters that Unicode gives
/// the property `White_Space`.
pub open spec fn is_space(c: char) -> bool {
    let code = c as u32;
    ||| 0x09 <= code <= 0x0d
    ||| code == 0x20
    ||| code == 0x85
    ||| code == 0xa0
    ||| code == 0x1680
    ||| 0x2000 <= code <= 0x200a
    ||| code == 0x2028
    ||| code == 0x2029
    ||| code == 0x202f
    ||| code == 0x205f
    ||| code == 0x3000
}

/// The words of a text: its longest runs of characters that do not
/// separate words, in their order.
pub open spec fn words(text: Seq<char>) -> Seq<Seq<char>>
    decreases text.len(),
{
    if text.len() == 0 {
        Seq::empty()
    } else {
        let before = text.drop_last();
        let c = text.last();
        if is_space(c) {
            words(before)
        } else if before.len() > 0 && !is_space(before.last()) {
            words(before).drop_last().push(words(before).last().push(c))
        } else {
            words(before).push(seq![c])
        }
    }
}

/// The words of a list, one on each line: each two are separated by a line
/// feed.
pub open spec fn join_lines(list: Seq<Seq<char>>) -> Seq<char>
    decreases list.len(),
{
    if list.len() == 0 {
        Seq::empty()
    } else if list.len() == 1 {
        list[0]
    } else {
        join_lines(list.drop_last()) + seq!['\n'] + list.last()
    }
}

/// The entry that a command asks a round for. `get` and a key ask for the
/// value of the key; words after the key are passed over. `put`, a key and
/// the words of a value ask to bind the key to those words, one on each line.
/// Anything else is no command.
pub open spec fn command_entry(text: Seq<char>) -> Result<EntryView, PaxosError> {
    let w = words(text);
    if w.len() < 2 {
        Err(PaxosError::BadRequest)
    } else if w[0] == seq!['g', 'e', 't'] {
        Ok(EntryView { key: w[1], val: None })
    } else if w[0] == seq!['p', 'u', 't'] {
        Ok(EntryView { key: w[1], val: Some(join_lines(w.skip(2))) })
    } else {
        Err(PaxosError::BadRequest)
    }
}

/// Whether a character separates words.
pub fn is_whitespace(c: char) -> (r: bool)
    ensures
        r == is_space(c),
{
    let code: u32 = c as u32;
    (0x09 <= code && code <= 0x0d) || code == 0x20 || code == 0x85 || code == 0xa0 || code
        == 0x1680 || (0x2000 <= code && code <= 0x200a) || code == 0x2028 || code == 0x2029
        || code == 0x202f || code == 0x205f || code == 0x3000
}

/// The words that a list of ranges cuts out of a text.
pub open spec fn cut(text: Seq<char>, ranges: Seq<(usize, usize)>) -> Seq<Seq<char>> {
    Seq::new(ranges.len(), |i: int| text.subrange(ranges[i].0 as int, ranges[i].1 as int))
}

/// Where the words of a text begin and end.
fn word_ranges(text: &str) -> (ranges: Vec<(usize, usize)>)
    ensures
        cut(text@, ranges@) == words(text@),
        forall|i: int|
            0 <= i < ranges@.len() ==> (#[trigger] ranges@[i]).0 < ranges@[i].1 <= text@.len(),
{
    let n: usize = text.unicode_len();
    let mut ranges: Vec<(usize, usize)> = Vec::new();
    let mut in_word: bool = false;
    let mut i: usize = 0;
    while i < n
        invariant
            n == text@.len(),
            0 <= i <= n,
            cut(text@, ranges@) == words(text@.take(i as int)),
            forall|k: int| 0 <= k < ranges@.len() ==> (#[trigger] ranges@[k]).0 < ranges@[k].1 <= i,
            in_word == (i > 0 && !is_space(text@[i - 1])),
            in_word ==> ranges@.len() > 0 && ranges@.last().1 == i,
        decreases n - i,
    {
        let c: char = text.get_char(i);
        let ghost prefix = text@.take(i as int);
        let ghost next = text@.take(i + 1);
        let ghost old_ranges = ranges@;
        assert(next.drop_last() =~= prefix);
        assert(next.last() == c);
        if is_whitespace(c) {
            in_word = false;
        } else if in_word {
            let last: usize = ranges.len() - 1;
            let start: usize = ranges[last].0;
            ranges.set(last, (start, i + 1));
            assert(prefix.last() == text@[i - 1]);
            assert(cut(text@, ranges@) =~= words(prefix).drop_last().push(
                words(prefix).last().push(c),
            )) by {
                assert(cut(text@, old_ranges).last() == text@.subrange(start as int, i as int));
                assert(text@.subrange(start as int, i + 1) =~= text@.subrange(
                    start as int,
                    i as int,
                ).push(c));
            }
        } else {
            ranges.push((i, i + 1));
            assert(text@.subrange(i as int, i + 1) =~= seq![c]);
            assert(cut(text@, ranges@) =~= words(prefix).push(seq![c]));
            assert(i > 0 ==> prefix.last() == text@[i - 1]);
            in_word = true;
        }
        i = i + 1;
    }
    assert(text@.take(n as int) =~= text@);
    ranges
}


/// Reads a client's command and gives the entry to run a round for.
pub fn parse_command(text: &str) -> (r: Result<Entry<Key, Value>, PaxosError>)
    ensures
        match r {
            Ok(entry) => command_entry(text@) == Ok::<EntryView, PaxosError>(entry@),
            Err(e) => command_entry(text@) == Err::<EntryView, PaxosError>(e),
        },
{
    let ranges = word_ranges(text);
    if ranges.len() < 2 {
        return Err(PaxosError::BadRequest);
    }
    let ghost w = words(text@);
    assert(w[0] == text@.subrange(ranges@[0].0 as int, ranges@[0].1 as int));
    assert(w[1] == text@.subrange(ranges@[1].0 as int, ranges@[1].1 as int));
    proof {
        reveal_strlit("get");
        reveal_strlit("put");
        reveal_strlit("\n");
    }
    assert("get"@ =~= seq!['g', 'e', 't']);
    assert("put"@ =~= seq!['p', 'u', 't']);
    let verb: String = text.substring_char(ranges[0].0, ranges[0].1).to_owned();
    let key: String = text.substring_char(ranges[1].0, ranges[1].1).to_owned();
    if verb == String::from_str("get") {
        Ok(Entry { key, val: None })
    } else if verb == String::from_str("put") {
        let mut value = String::new();
        let mut k: usize = 2;
        while k < ranges.len()
            invariant
                2 <= k <= ranges@.len(),
                cut(text@, ranges@) == w,
                forall|i: int|
                    0 <= i < ranges@.len() ==> (#[trigger] ranges@[i]).0 < ranges@[i].1
                        <= text@.len(),
                value@ == join_lines(w.subrange(2, k as int)),
                "\n"@ == seq!['\n'],
            decreases ranges@.len() - k,
        {
            let ghost so_far = w.subrange(2, k as int);
            let ghost next = w.subrange(2, k + 1);
            assert(next.drop_last() =~= so_far);
            assert(next.last() == text@.subrange(ranges@[k as int].0 as int, ranges@[k as int].1 as int));
            if k > 2 {
                value.append("\n");
            }
            value.append(text.substring_char(ranges[k].0, ranges[k].1));
            k = k + 1;
            assert(value@ =~= join_lines(next));
        }
        assert(w.subrange(2, k as int) =~= w.skip(2));
        Ok(Entry { key, val: Some(value) })
    } else {
        Err(PaxosError::BadRequest)
    }
}


/// No word is empty, and no word holds a character that separates words.
pub proof fn lemma_words_hold_no_separator(text: Seq<char>, i: int, j: int)
    requires
        0 <= i < words(text).len(),
        0 <= j < words(text)[i].len(),
    ensures
        !is_space(words(text)[i][j]),
    decreases text.len(),
{
    lemma_words_are_not_empty(text);
    if text.len() > 0 {
        let before = text.drop_last();
        let c = text.last();
        if is_space(c) {
            lemma_words_hold_no_separator(before, i, j);
        } else if before.len() > 0 && !is_space(before.last()) {
            lemma_words_are_not_empty(before);
            if i < words(before).len() - 1 {
                lemma_words_hold_no_separator(before, i, j);
            } else if j < words(before).last().len() {
                lemma_words_hold_no_separator(before, i, j);
            }
        } else if i < words(before).len() {
            lemma_words_hold_no_separator(before, i, j);
        }
    }
}

/// No word is empty, and a text that ends in a character of a word has a
/// word.
pub proof fn lemma_words_are_not_empty(text: Seq<char>)
    ensures
        forall|i: int| 0 <= i < words(text).len() ==> (#[trigger] words(text)[i]).len() > 0,
        text.len() > 0 && !is_space(text.last()) ==> words(text).len() > 0,
    decreases text.len(),
{
    if text.len() > 0 {
        let before = text.drop_last();
        lemma_words_are_not_empty(before);
        let c = text.last();
        assert forall|i: int| 0 <= i < words(text).len() implies (#[trigger] words(text)[i]).len()
            > 0 by {
            if is_space(c) {
            } else if before.len() > 0 && !is_space(before.last()) {
                if i < words(before).len() - 1 {
                    assert(words(text)[i] == words(before)[i]);
                }
            } else if i < words(before).len() {
                assert(words(text)[i] == words(before)[i]);
            }
        }
    }
}

/// A text without a character of a word has no words.
pub proof fn lemma_blank_text_has_no_words(text: Seq<char>)
    requires
        forall|i: int| 0 <= i < text.len() ==> is_space(#[trigger] text[i]),
    ensures
        words(text).len() == 0,
    decreases text.len(),
{
    if text.len() > 0 {
        lemma_blank_text_has_no_words(text.drop_last());
    }
}

} // verus!
