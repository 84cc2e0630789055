use vstd::prelude::*;
use crate::commands::Command;

verus! {

/// The ways a line of the command file can fail to be a command.
#[derive(Debug, Clone, Copy, PartialEq, Eq, Structural)]
pub enum ParseError {
    /// The line holds no word.
    Empty,
    /// The first word is none of `insert`, `delete`, `flip`, `rank`, `select`.
    UnknownCommand,
    /// The command has fewer words than it needs.
    MissingArgument,
    /// A word that should be a number is no sequence of decimal digits, or is too
    /// large for a `usize`.
    BadNumber,
}

/// The words of `s` from position `i` on, where `cur` is the part of the current word
/// that lies before `i`: a word is a longest run of bytes without a space.
pub open spec fn split(s: Seq<u8>, i: int, cur: Seq<u8>) -> Seq<Seq<u8>>
    decreases s.len() - i,
{
    if i < 0 || i >= s.len() {
        if cur.len() > 0 {
            seq![cur]
        } else {
            seq![]
        }
    } else if s[i] == 32 {
        if cur.len() > 0 {
            seq![cur] + split(s, i + 1, Seq::empty())
        } else {
            split(s, i + 1, Seq::empty())
        }
    } else {
        split(s, i + 1, cur.push(s[i]))
    }
}

/// The words of a line: the longest runs of bytes without a space, in their order.
pub open spec fn words(s: Seq<u8>) -> Seq<Seq<u8>> {
    split(s, 0, Seq::empty())
}

/// The number that a sequence of decimal digits writes.
pub open spec fn digits_value(t: Seq<u8>) -> nat
    decreases t.len(),
{
    if t.len() == 0 {
        0
    } else {
        (digits_value(t.drop_last()) * 10 + (t.last() - 48)) as nat
    }
}

/// Whether every byte is a decimal digit.
pub open spec fn all_digits(t: Seq<u8>) -> bool {
    forall|i: int| 0 <= i < t.len() ==> 48 <= #[trigger] t[i] <= 57
}

/// The number that the word writes: it is made of one or more decimal digits and
/// nothing else, and the number fits in a `usize`.
pub open spec fn number(t: Seq<u8>) -> Option<usize> {
    if t.len() > 0 && all_digits(t) && digits_value(t) <= usize::MAX {
        Some(digits_value(t) as usize)
    } else {
        None
    }
}

/// The bit that a word stands for: zero for the word `0`, one for every other word.
pub open spec fn bit_of(t: Seq<u8>) -> bool {
    t != seq![48u8]
}

pub open spec fn word_insert() -> Seq<u8> {
    seq![105u8, 110u8, 115u8, 101u8, 114u8, 116u8]
}

pub open spec fn word_delete() -> Seq<u8> {
    seq![100u8, 101u8, 108u8, 101u8, 116u8, 101u8]
}

pub open spec fn word_flip() -> Seq<u8> {
    seq![102u8, 108u8, 105u8, 112u8]
}

pub open spec fn word_rank() -> Seq<u8> {
    seq![114u8, 97u8, 110u8, 107u8]
}

pub open spec fn word_select() -> Seq<u8> {
    seq![115u8, 101u8, 108u8, 101u8, 99u8, 116u8]
}

/// An index and a bit, read from the words at the places `at_index` and `at_bit`.
pub open spec fn index_and_bit(w: Seq<Seq<u8>>, at_index: int, at_bit: int) -> Result<
    (usize, bool),
    ParseError,
> {
    if w.len() <= 1 {
        Err(ParseError::MissingArgument)
    } else if at_index == 1 && number(w[1]) is None {
        Err(ParseError::BadNumber)
    } else if w.len() <= 2 {
        Err(ParseError::MissingArgument)
    } else if number(w[at_index]) is None {
        Err(ParseError::BadNumber)
    } else {
        Ok((number(w[at_index]).unwrap(), bit_of(w[at_bit])))
    }
}

/// The command that the words write. The first word names the command, the words
/// after it are its arguments in the order `insert <index> <bit>`, `delete <index>`,
/// `flip <index>`, `rank <bit> <index>`, `select <bit> <n>`; further words are not
/// looked at.
pub open spec fn command_of(w: Seq<Seq<u8>>) -> Result<Command, ParseError> {
    if w.len() == 0 {
        Err(ParseError::Empty)
    } else if w[0] == word_insert() {
        match index_and_bit(w, 1, 2) {
            Ok(a) => Ok(Command::Insert(a.0, a.1)),
            Err(e) => Err(e),
        }
    } else if w[0] == word_delete() || w[0] == word_flip() {
        if w.len() <= 1 {
            Err(ParseError::MissingArgument)
        } else if number(w[1]) is None {
            Err(ParseError::BadNumber)
        } else if w[0] == word_delete() {
            Ok(Command::Delete(number(w[1]).unwrap()))
        } else {
            Ok(Command::Flip(number(w[1]).unwrap()))
        }
    } else if w[0] == word_rank() || w[0] == word_select() {
        match index_and_bit(w, 2, 1) {
            Ok(a) => if w[0] == word_rank() {
                Ok(Command::Rank(a.1, a.0))
            } else {
                Ok(Command::Select(a.1, a.0))
            },
            Err(e) => Err(e),
        }
    } else {
        Err(ParseError::UnknownCommand)
    }
}

/// The view of a list of words.
pub open spec fn words_view(v: &Vec<Vec<u8>>) -> Seq<Seq<u8>> {
    v@.map_values(|w: Vec<u8>| w@)
}

/// Cuts a line into its words.
pub fn split_words(line: &[u8]) -> (r: Vec<Vec<u8>>)
    ensures
        words_view(&r) == words(line@),
{
    let mut done: Vec<Vec<u8>> = Vec::new();
    let mut cur: Vec<u8> = Vec::new();
    let mut i: usize = 0;
    proof {
        assert(words_view(&done) =~= Seq::<Seq<u8>>::empty());
        assert(words_view(&done) + split(line@, 0, cur@) =~= words(line@));
    }
    while i < line.len()
        invariant
            i <= line@.len(),
            words_view(&done) + split(line@, i as int, cur@) == words(line@),
        decreases line@.len() - i,
    {
        let b = line[i];
        let ghost before = words_view(&done);
        let ghost cur_before = cur@;
        if b == 32 {
            if cur.len() > 0 {
                done.push(cur);
                cur = Vec::new();
                proof {
                    assert(words_view(&done) =~= before + seq![cur_before]);
                    assert((before + seq![cur_before]) + split(line@, i + 1, Seq::empty()) =~= before
                        + (seq![cur_before] + split(line@, i + 1, Seq::empty())));
                }
            } else {
                proof {
                    assert(cur@ =~= Seq::<u8>::empty());
                }
            }
        } else {
            cur.push(b);
        }
        i += 1;
    }
    let ghost before = words_view(&done);
    let ghost cur_before = cur@;
    if cur.len() > 0 {
        done.push(cur);
        proof {
            assert(words_view(&done) =~= before + seq![cur_before]);
        }
    } else {
        proof {
            assert(before + Seq::<Seq<u8>>::empty() =~= before);
        }
    }
    done
}

/// The number written by the first `k` digits of a sequence of digits is at most the
/// number written by all of them.
proof fn lemma_digits_grow(t: Seq<u8>, k: int)
    requires
        all_digits(t),
        0 <= k <= t.len(),
    ensures
        digits_value(t.take(k)) <= digits_value(t),
    decreases t.len() - k,
{
    if k == t.len() {
        assert(t.take(k) =~= t);
    } else {
        lemma_digits_grow(t, k + 1);
        assert(t.take(k + 1).drop_last() =~= t.take(k));
        assert(t.take(k + 1).last() == t[k]);
    }
}

/// Reads a word as a number.
pub fn parse_number(t: &[u8]) -> (r: Option<usize>)
    ensures
        r == number(t@),
{
    if t.len() == 0 {
        return None;
    }
    let mut acc: usize = 0;
    let mut i: usize = 0;
    proof {
        assert(t@.take(0) =~= Seq::<u8>::empty());
    }
    while i < t.len()
        invariant
            i <= t@.len(),
            all_digits(t@.take(i as int)),
            acc == digits_value(t@.take(i as int)),
        decreases t@.len() - i,
    {
        let b = t[i];
        if b < 48 || b > 57 {
            proof {
                assert(!all_digits(t@));
            }
            return None;
        }
        let d: usize = (b - 48) as usize;
        proof {
            assert(t@.take(i + 1).drop_last() =~= t@.take(i as int));
            assert(t@.take(i + 1).last() == b);
            assert(all_digits(t@.take(i + 1))) by {
                assert forall|j: int| 0 <= j < i + 1 implies 48 <= #[trigger] t@.take(i + 1)[j]
                    <= 57 by {
                    if j < i {
                        assert(t@.take(i as int)[j] == t@[j]);
                    }
                }
            }
        }
        if acc > (usize::MAX - d) / 10 {
            proof {
                assert(digits_value(t@.take(i + 1)) > usize::MAX);
                if all_digits(t@) {
                    lemma_digits_grow(t@, i + 1);
                }
            }
            return None;
        }
        acc = acc * 10 + d;
        i += 1;
    }
    proof {
        assert(t@.take(t@.len() as int) =~= t@);
    }
    Some(acc)
}

/// Whether the word is the word `0`.
fn is_zero_word(t: &Vec<u8>) -> (r: bool)
    ensures
        r == !bit_of(t@),
{
    if t.len() == 1 {
        proof {
            if t@[0] == 48 {
                assert(t@ =~= seq![48u8]);
            } else {
                assert(seq![48u8][0] == 48u8);
            }
        }
        t[0] == 48
    } else {
        proof {
            assert(seq![48u8].len() == 1);
        }
        false
    }
}

/// Whether the word is made of the bytes `word`.
fn is_word(t: &Vec<u8>, word: &[u8]) -> (r: bool)
    ensures
        r == (t@ == word@),
{
    if t.len() != word.len() {
        return false;
    }
    let mut i: usize = 0;
    while i < t.len()
        invariant
            i <= t@.len(),
            t@.len() == word@.len(),
            forall|j: int| 0 <= j < i ==> t@[j] == word@[j],
        decreases t@.len() - i,
    {
        if t[i] != word[i] {
            return false;
        }
        i += 1;
    }
    proof {
        assert(t@ =~= word@);
    }
    true
}

/// Reads an index and a bit from the words at the places `at_index` and `at_bit`, one
/// of which is 1 and the other 2.
fn parse_index_and_bit(w: &Vec<Vec<u8>>, at_index: usize, at_bit: usize) -> (r: Result<
    (usize, bool),
    ParseError,
>)
    requires
        (at_index == 1 && at_bit == 2) || (at_index == 2 && at_bit == 1),
    ensures
        r == index_and_bit(words_view(w), at_index as int, at_bit as int),
{
    if w.len() <= 1 {
        return Err(ParseError::MissingArgument);
    }
    if at_index == 1 {
        if parse_number(w[1].as_slice()).is_none() {
            return Err(ParseError::BadNumber);
        }
    }
    if w.len() <= 2 {
        return Err(ParseError::MissingArgument);
    }
    match parse_number(w[at_index].as_slice()) {
        None => Err(ParseError::BadNumber),
        Some(index) => Ok((index, !is_zero_word(&w[at_bit]))),
    }
}

/// Reads a line of the command file as a command.
pub fn parse_command(line: &[u8]) -> (r: Result<Command, ParseError>)
    ensures
        r == command_of(words(line@)),
{
    let w = split_words(line);
    if w.len() == 0 {
        return Err(ParseError::Empty);
    }
    let insert: [u8; 6] = [105, 110, 115, 101, 114, 116];
    let delete: [u8; 6] = [100, 101, 108, 101, 116, 101];
    let flip: [u8; 4] = [102, 108, 105, 112];
    let rank: [u8; 4] = [114, 97, 110, 107];
    let select: [u8; 6] = [115, 101, 108, 101, 99, 116];
    proof {
        assert(insert@ =~= word_insert());
        assert(delete@ =~= word_delete());
        assert(flip@ =~= word_flip());
        assert(rank@ =~= word_rank());
        assert(select@ =~= word_select());
    }
    if is_word(&w[0], insert.as_slice()) {
        match parse_index_and_bit(&w, 1, 2) {
            Ok(a) => Ok(Command::Insert(a.0, a.1)),
            Err(e) => Err(e),
        }
    } else if is_word(&w[0], delete.as_slice()) {
        if w.len() <= 1 {
            return Err(ParseError::MissingArgument);
        }
        match parse_number(w[1].as_slice()) {
            None => Err(ParseError::BadNumber),
            Some(index) => Ok(Command::Delete(index)),
        }
    } else if is_word(&w[0], flip.as_slice()) {
        if w.len() <= 1 {
            return Err(ParseError::MissingArgument);
        }
        match parse_number(w[1].as_slice()) {
            None => Err(ParseError::BadNumber),
            Some(index) => Ok(Command::Flip(index)),
        }
    } else if is_word(&w[0], rank.as_slice()) {
        match parse_index_and_bit(&w, 2, 1) {
            Ok(a) => Ok(Command::Rank(a.1, a.0)),
            Err(e) => Err(e),
        }
    } else if is_word(&w[0], select.as_slice()) {
        match parse_index_and_bit(&w, 2, 1) {
            Ok(a) => Ok(Command::Select(a.1, a.0)),
            Err(e) => Err(e),
        }
    } else {
        Err(ParseError::UnknownCommand)
    }
}

} // verus!
