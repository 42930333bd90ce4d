//! Reading a trace from text: tokens `R:<n>` and `W:<n>`, separated by
//! white space.

use crate::access::{AccessType, MemoryAccess};
use crate::text::{char_is_space, chars_of, is_space, parse_usize, read_usize};
use vstd::prelude::*;

verus! {

/// What is wrong with a token of a trace.
#[derive(Debug, Clone, Copy, PartialEq, Eq, Structural)]
pub enum TraceErrorKind {
    /// The token does not start with `R` or `W` followed by a colon or its end.
    Operation,
    /// What follows the colon is no page number.
    PageNumber,
}

/// The first token of a trace that could not be read.
#[derive(Debug, Clone)]
pub struct TraceError {
    pub kind: TraceErrorKind,
    pub token: String,
}

/// A `TraceError` as contracts see it.
pub struct TraceFault {
    pub kind: TraceErrorKind,
    pub token: Seq<char>,
}

impl View for TraceError {
    type V = TraceFault;

    open spec fn view(&self) -> TraceFault {
        TraceFault { kind: self.kind, token: self.token@ }
    }
}

/// The number of characters from `i` on that come before the next white
/// space or the end of the text.
pub open spec fn run_len(text: Seq<char>, i: int) -> nat
    decreases text.len() - i,
{
    if i < 0 || i >= text.len() || is_space(text[i]) {
        0
    } else {
        1 + run_len(text, i + 1)
    }
}

/// A run ends inside the text, at white space or at the text's end, and
/// holds no white space.
pub proof fn lemma_run_len(text: Seq<char>, i: int)
    requires
        0 <= i <= text.len(),
    ensures
        i + run_len(text, i) <= text.len(),
        i + run_len(text, i) < text.len() ==> is_space(text[i + run_len(text, i)]),
        forall|k: int| i <= k < i + run_len(text, i) ==> !is_space(#[trigger] text[k]),
    decreases text.len() - i,
{
    if i < text.len() && !is_space(text[i]) {
        lemma_run_len(text, i + 1);
    }
}

/// The part of a token that should be its page number: what follows the
/// operation and the colon.
pub open spec fn page_text(token: Seq<char>) -> Seq<char> {
    if token.len() < 2 {
        Seq::empty()
    } else {
        token.skip(2)
    }
}

/// Whether a token starts with an operation: `R` or `W`, alone or before a
/// colon.
pub open spec fn has_operation(token: Seq<char>) -> bool {
    &&& token.len() >= 1
    &&& token[0] == 'R' || token[0] == 'W'
    &&& token.len() == 1 || token[1] == ':'
}

/// The access that a token denotes, or what is wrong with the token.
pub open spec fn parse_token(token: Seq<char>) -> Result<MemoryAccess, TraceErrorKind> {
    if !has_operation(token) {
        Err(TraceErrorKind::Operation)
    } else {
        match parse_usize(page_text(token)) {
            None => Err(TraceErrorKind::PageNumber),
            Some(n) => Ok(
                MemoryAccess {
                    frame_number: n,
                    access_type: if token[0] == 'R' {
                        AccessType::Read
                    } else {
                        AccessType::Write
                    },
                },
            ),
        }
    }
}

/// `rest` with the accesses `done` in front of it, where `rest` is a trace.
pub open spec fn after(done: Seq<MemoryAccess>, rest: Result<Seq<MemoryAccess>, TraceFault>) -> Result<
    Seq<MemoryAccess>,
    TraceFault,
> {
    match rest {
        Ok(accesses) => Ok(done + accesses),
        Err(fault) => Err(fault),
    }
}

/// The trace that the text from `i` on denotes: the accesses of its tokens
/// in order, or the first token that denotes none.
pub open spec fn parse_from(text: Seq<char>, i: int) -> Result<Seq<MemoryAccess>, TraceFault>
    decreases text.len() - i,
    via parse_from_decreases
{
    if i < 0 || i >= text.len() {
        Ok(Seq::empty())
    } else if is_space(text[i]) {
        parse_from(text, i + 1)
    } else {
        let end = i + 1 + run_len(text, i + 1);
        let token = text.subrange(i, end);
        match parse_token(token) {
            Err(kind) => Err(TraceFault { kind, token }),
            Ok(access) => after(seq![access], parse_from(text, end)),
        }
    }
}

#[via_fn]
proof fn parse_from_decreases(text: Seq<char>, i: int) {
    if 0 <= i < text.len() {
        lemma_run_len(text, i + 1);
    }
}

/// The trace that `text` denotes.
pub open spec fn parse_trace(text: Seq<char>) -> Result<Seq<MemoryAccess>, TraceFault> {
    parse_from(text, 0)
}

/// Reads the token that stands in `text` from `from` up to `to`.
fn read_token(text: &Vec<char>, from: usize, to: usize) -> (r: Result<MemoryAccess, TraceErrorKind>)
    requires
        from < to <= text@.len(),
    ensures
        r == parse_token(text@.subrange(from as int, to as int)),
{
    let ghost token = text@.subrange(from as int, to as int);
    let first: char = text[from];
    assert(token[0] == first);
    if first != 'R' && first != 'W' {
        return Err(TraceErrorKind::Operation);
    }
    let access_type = if first == 'R' {
        AccessType::Read
    } else {
        AccessType::Write
    };
    if to - from == 1 {
        assert(page_text(token) =~= text@.subrange(to as int, to as int));
        return match read_usize(text, to, to) {
            Some(n) => Ok(MemoryAccess { frame_number: n, access_type }),
            None => Err(TraceErrorKind::PageNumber),
        };
    }
    assert(token[1] == text@[from + 1]);
    if text[from + 1] != ':' {
        return Err(TraceErrorKind::Operation);
    }
    assert(page_text(token) =~= text@.subrange(from + 2, to as int));
    match read_usize(text, from + 2, to) {
        Some(n) => Ok(MemoryAccess { frame_number: n, access_type }),
        None => Err(TraceErrorKind::PageNumber),
    }
}

impl TraceError {
    /// A sentence that names the fault and the token.
    pub fn message(&self) -> (text: String)
        ensures
            text@ == (match self.kind {
                TraceErrorKind::Operation => "Invalid access token: "@,
                TraceErrorKind::PageNumber => "Invalid memory access token: "@,
            }) + self.token@,
    {
        let start = match self.kind {
            TraceErrorKind::Operation => String::from_str("Invalid access token: "),
            TraceErrorKind::PageNumber => String::from_str("Invalid memory access token: "),
        };
        start.concat(self.token.as_str())
    }
}

impl MemoryAccess {
    /// Reads a trace: the accesses that the tokens of `input` denote, in
    /// order, or the first token that denotes none.
    pub fn parse(input: &str) -> (r: Result<Vec<MemoryAccess>, TraceError>)
        ensures
            match r {
                Ok(accesses) => parse_trace(input@) == Ok::<Seq<MemoryAccess>, TraceFault>(accesses@),
                Err(error) => parse_trace(input@) == Err::<Seq<MemoryAccess>, TraceFault>(error@),
            },
    {
        let text = chars_of(input);
        let mut accesses: Vec<MemoryAccess> = Vec::new();
        let mut i: usize = 0;
        assert(after(accesses@, parse_from(text@, 0)) == parse_from(text@, 0)) by {
            match parse_from(text@, 0) {
                Ok(rest) => {
                    assert(accesses@ + rest =~= rest);
                },
                Err(_) => {},
            }
        }
        while i < text.len()
            invariant
                i <= text@.len(),
                text@ == input@,
                parse_trace(input@) == after(accesses@, parse_from(text@, i as int)),
            decreases text@.len() - i,
        {
            if char_is_space(text[i]) {
                i = i + 1;
            } else {
                let mut end: usize = i + 1;
                while end < text.len() && !char_is_space(text[end])
                    invariant
                        i < end <= text@.len(),
                        end + run_len(text@, end as int) == i + 1 + run_len(text@, i + 1),
                    decreases text@.len() - end,
                {
                    end = end + 1;
                }
                match read_token(&text, i, end) {
                    Ok(access) => {
                        proof {
                            match parse_from(text@, end as int) {
                                Ok(rest) => {
                                    assert(accesses@ + (seq![access] + rest) =~= accesses@.push(access) + rest);
                                },
                                Err(_) => {},
                            }
                        }
                        accesses.push(access);
                    },
                    Err(kind) => {
                        let token = input.substring_char(i, end).to_owned();
                        return Err(TraceError { kind, token });
                    },
                }
                i = end;
            }
        }
        assert(accesses@ + Seq::<MemoryAccess>::empty() =~= accesses@);
        Ok(accesses)
    }

    /// Reads a trace from text in which every token denotes an access.
    pub fn create(input_string: String) -> (accesses: Vec<MemoryAccess>)
        requires
            parse_trace(input_string@) is Ok,
        ensures
            parse_trace(input_string@) == Ok::<Seq<MemoryAccess>, TraceFault>(accesses@),
    {
        match MemoryAccess::parse(input_string.as_str()) {
            Ok(accesses) => accesses,
            Err(_) => vstd::pervasive::unreached(),
        }
    }
}

} // verus!
