use vstd::prelude::*;
use vstd::string::StringExecFns;

verus! {

#[verifier::external_type_specification]
#[verifier::external_body]
pub struct ExIoError(std::io::Error);

/// A sequential, seekable source of raw log lines: a fixed sequence of
/// lines (`lines`) and a cursor (`position`). `read_record` yields the line
/// at the cursor with its terminator stripped and advances, reports end of
/// stream once the cursor has passed the last line, or fails with an I/O
/// error, leaving the cursor where it was. The meaning of the offsets that
/// `seek` and `tell` exchange is the implementor's (a file-backed store
/// counts bytes; an in-memory one counts records).
pub trait LogReader {
    /// The lines this source yields, in order.
    spec fn lines(&self) -> Seq<Seq<char>>;

    /// The cursor: how many lines have been consumed.
    spec fn position(&self) -> int;

    /// Repositions the source at `pos`.
    fn seek(&mut self, pos: u64) -> Result<(), std::io::Error>;

    /// The current position.
    fn tell(&self) -> u64;

    /// Reads the next record, or `None` at end of stream.
    fn read_record(&mut self) -> (r: Result<Option<String>, std::io::Error>)
        ensures
            final(self).lines() == old(self).lines(),
            r matches Ok(Some(line)) ==> (0 <= old(self).position() < old(self).lines().len()
                && line@ == old(self).lines()[old(self).position()] && final(self).position()
                == old(self).position() + 1),
            r matches Ok(None) ==> (old(self).position() >= old(self).lines().len()
                && final(self).position() == old(self).position()),
            r is Err ==> final(self).position() == old(self).position(),
    ;
}

/// Strips one trailing line terminator from `line`: a final `"\r\n"` or a
/// final `"\n"`; anything else is kept as it is.
pub open spec fn spec_strip_terminator(s: Seq<char>) -> Seq<char> {
    if s.len() >= 2 && s[s.len() - 2] == '\r' && s[s.len() - 1] == '\n' {
        s.take(s.len() - 2)
    } else if s.len() >= 1 && s[s.len() - 1] == '\n' {
        s.take(s.len() - 1)
    } else {
        s
    }
}

/// Removes one trailing line terminator (`"\r\n"` or `"\n"`) from `line`.
pub fn strip_terminator(line: &str) -> (r: String)
    ensures
        r@ == spec_strip_terminator(line@),
{
    let n = line.unicode_len();
    if n >= 2 && line.get_char(n - 2) == '\r' && line.get_char(n - 1) == '\n' {
        line.substring_char(0, n - 2).to_owned()
    } else if n >= 1 && line.get_char(n - 1) == '\n' {
        line.substring_char(0, n - 1).to_owned()
    } else {
        line.to_owned()
    }
}

/// An in-memory record source over a fixed list of lines. Its offsets
/// count records rather than bytes: `tell` reports how many lines have
/// been consumed, and `seek` moves to that count (capped at the end).
/// It never fails: `read_record` and `seek` always return `Ok`.
pub struct LineSource {
    lines: Vec<String>,
    index: usize,
}

impl LineSource {
    #[verifier::type_invariant]
    spec fn wf(self) -> bool {
        self.index <= self.lines@.len()
    }

    /// A source that yields `lines` in order, positioned at the start.
    pub fn new(lines: Vec<String>) -> (r: LineSource)
        ensures
            r.lines() == lines.deep_view(),
            r.position() == 0,
    {
        LineSource { lines, index: 0 }
    }
}

impl LogReader for LineSource {
    closed spec fn lines(&self) -> Seq<Seq<char>> {
        self.lines.deep_view()
    }

    closed spec fn position(&self) -> int {
        self.index as int
    }

    /// Moves the cursor to record `pos`, or to the end when `pos` lies
    /// beyond it. Never fails.
    fn seek(&mut self, pos: u64) -> (r: Result<(), std::io::Error>)
        ensures
            r is Ok,
            final(self).lines() == old(self).lines(),
            final(self).position() == (if pos <= old(self).lines().len() {
                pos as int
            } else {
                old(self).lines().len() as int
            }),
    {
        proof {
            use_type_invariant(&*self);
        }
        if pos >= self.lines.len() as u64 {
            self.index = self.lines.len();
        } else {
            self.index = pos as usize;
        }
        Ok(())
    }

    /// The number of records consumed so far.
    fn tell(&self) -> (r: u64)
        ensures
            r == self.position(),
    {
        self.index as u64
    }

    /// Yields the line at the cursor and advances, or `None` once every
    /// line has been yielded. Never fails.
    fn read_record(&mut self) -> (r: Result<Option<String>, std::io::Error>)
        ensures
            r is Ok,
            final(self).lines() == old(self).lines(),
            r matches Ok(Some(line)) ==> (old(self).position() < old(self).lines().len()
                && line@ == old(self).lines()[old(self).position()] && final(self).position()
                == old(self).position() + 1),
            (r matches Ok(None)) == (old(self).position() == old(self).lines().len()),
            r matches Ok(None) ==> (*final(self) == *old(self)),
    {
        proof {
            use_type_invariant(&*self);
        }
        if self.index < self.lines.len() {
            let line = self.lines[self.index].clone();
            self.index = self.index + 1;
            Ok(Some(line))
        } else {
            Ok(None)
        }
    }
}

} // verus!
