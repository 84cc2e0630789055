use vstd::prelude::*;
use crate::bits::count;
use crate::dynamic_vector::DynamicBitVector;
use crate::error::BitVecError;
use crate::parse::{command_of, number, parse_command, parse_number, words, ParseError};

verus! {

/// The ways a line of a command file can fail.
#[derive(Debug, Clone, Copy, PartialEq, Eq)]
pub enum ScriptError {
    /// The first line is no number.
    Count,
    /// A line that should hold a bit is neither `0` nor `1`.
    Bit,
    /// A line that should hold a command does not.
    Line(ParseError),
    /// The vector could not carry out the command.
    Vector(BitVecError),
}

/// Where the reading of a command file stands. The file starts with a line that holds
/// a number, goes on with that many lines of one bit each, which are appended to the
/// vector, and ends with any number of lines of one command each.
#[derive(Debug, Clone, Copy, PartialEq, Eq)]
pub struct Script {
    /// whether the first line has been read
    pub started: bool,
    /// how many lines of one bit are still to come
    pub to_push: usize,
}

/// The bit that a line of one bit holds.
pub open spec fn bit_line(line: Seq<u8>) -> Option<bool> {
    if line == seq![48u8] {
        Some(false)
    } else if line == seq![49u8] {
        Some(true)
    } else {
        None
    }
}

/// Reads a line of one bit.
pub fn parse_bit(line: &[u8]) -> (r: Option<bool>)
    ensures
        r == bit_line(line@),
{
    if line.len() != 1 {
        proof {
            assert(seq![48u8].len() == 1 && seq![49u8].len() == 1);
        }
        return None;
    }
    proof {
        assert(line@[0] == 48 ==> line@ =~= seq![48u8]);
        assert(line@[0] == 49 ==> line@ =~= seq![49u8]);
        assert(seq![48u8][0] == 48u8 && seq![49u8][0] == 49u8);
    }
    if line[0] == 48 {
        Some(false)
    } else if line[0] == 49 {
        Some(true)
    } else {
        None
    }
}

impl Script {
    /// Whether the line adds a bit to the vector in this state: a line that appends
    /// its bit, or a command that inserts.
    pub open spec fn grows(&self, line: Seq<u8>) -> bool {
        self.started && if self.to_push > 0 {
            bit_line(line) is Some
        } else {
            command_of(words(line)) matches Ok(c) && c is Insert
        }
    }

    /// The state before the first line.
    pub fn new() -> (r: Self)
        ensures
            r == (Script { started: false, to_push: 0 }),
    {
        Script { started: false, to_push: 0 }
    }

    /// Takes in the next line of the command file. The first line sets the number of
    /// bits to come; each of the next lines appends its bit to the vector; every line
    /// after them is a command, which is carried out. Returns what the line puts out:
    /// the answer of a query, and nothing for every other line. A line that fails
    /// leaves the state and the vector as they were.
    pub fn step(&mut self, dbv: &mut DynamicBitVector, line: &[u8]) -> (r: Result<
        Option<usize>,
        ScriptError,
    >)
        requires
            old(dbv).wf(),
            old(self).grows(line@) ==> old(dbv).can_grow(),
        ensures
            final(dbv).wf(),
            r is Err ==> *final(self) == *old(self) && *final(dbv) == *old(dbv),
            !old(self).started ==> match number(line@) {
                Some(n) => r == Ok::<Option<usize>, ScriptError>(None) && *final(self) == (Script {
                    started: true,
                    to_push: n,
                }) && *final(dbv) == *old(dbv),
                None => r == Err::<Option<usize>, ScriptError>(ScriptError::Count),
            },
            old(self).started && old(self).to_push > 0 ==> match bit_line(line@) {
                Some(b) => r == Ok::<Option<usize>, ScriptError>(None) && *final(self) == (Script {
                    started: true,
                    to_push: (old(self).to_push - 1) as usize,
                }) && final(dbv)@ == old(dbv)@.push(b),
                None => r == Err::<Option<usize>, ScriptError>(ScriptError::Bit),
            },
            old(self).started && old(self).to_push == 0 ==> *final(self) == *old(self) && (
            match command_of(words(line@)) {
                Err(e) => r == Err::<Option<usize>, ScriptError>(ScriptError::Line(e)),
                Ok(c) => match r {
                    Ok(answer) => {
                        &&& c.in_bounds(old(dbv)@.len())
                        &&& final(dbv)@ == c.effect(old(dbv)@)
                        &&& c.answers(old(dbv)@, answer)
                        &&& c.is_query() ==> *final(dbv) == *old(dbv)
                    },
                    Err(e) => if c is Select {
                        e == ScriptError::Vector(BitVecError::NotFound) && count(
                            old(dbv)@,
                            c->Select_0,
                        ) <= c->Select_1
                    } else {
                        e == ScriptError::Vector(BitVecError::OutOfBounds) && !c.in_bounds(
                            old(dbv)@.len(),
                        )
                    },
                },
            }),
    {
        if !self.started {
            match parse_number(line) {
                Some(n) => {
                    self.started = true;
                    self.to_push = n;
                    Ok(None)
                },
                None => Err(ScriptError::Count),
            }
        } else if self.to_push > 0 {
            match parse_bit(line) {
                Some(b) => {
                    dbv.push(b);
                    self.to_push = self.to_push - 1;
                    Ok(None)
                },
                None => Err(ScriptError::Bit),
            }
        } else {
            match parse_command(line) {
                Err(e) => Err(ScriptError::Line(e)),
                Ok(c) => match dbv.run(c) {
                    Ok(answer) => Ok(answer),
                    Err(e) => Err(ScriptError::Vector(e)),
                },
            }
        }
    }
}

} // verus!
