//! Sinks for statements: anything that takes statements one by one and
//! keeps a line of text for each.

use crate::predicates::Stmt;
use vstd::prelude::*;

verus! {

/// The step at which a sink failed.
#[derive(Debug, Clone, Copy, PartialEq, Eq)]
pub enum IoOperation {
    /// Opening the target for writing.
    Create,
    /// Handing text to the target.
    Write,
    /// Making the target keep what it was handed.
    Flush,
}

/// The failure of a sink. It is final for the operation that met it: a
/// sink does not try again.
#[derive(Debug, Clone, Copy, PartialEq, Eq)]
pub struct IoError {
    pub operation: IoOperation,
    /// The error number of the operating system, where there is one.
    pub os_code: Option<i32>,
}

/// A sink for statements. It takes well-formed statements only. What it
/// does with one is between it and its target, so the trait promises
/// nothing of the outcome; [`Buffer`] says what it does of its own.
pub trait Writer {
    /// Appends the line of `statement` to the sink.
    fn add(&mut self, statement: Stmt) -> (r: Result<(), IoError>)
        requires
            statement@.wf(),
    ;
}

/// A sink that keeps its lines in memory.
pub struct Buffer {
    text: String,
}

impl Buffer {
    /// The text that the sink holds.
    pub closed spec fn written(&self) -> Seq<char> {
        self.text@
    }

    /// An empty sink.
    pub fn new() -> (buffer: Buffer)
        ensures
            buffer.written() == Seq::<char>::empty(),
    {
        Buffer { text: String::new() }
    }

    /// The lines that the sink holds.
    pub fn as_str(&self) -> (text: &str)
        ensures
            text@ == self.written(),
    {
        self.text.as_str()
    }

    /// Releases the sink and gives the lines that it held.
    pub fn into_string(self) -> (text: String)
        ensures
            text@ == self.written(),
    {
        self.text
    }
}

impl Writer for Buffer {
    /// Appends the line of `statement`; this sink never fails.
    fn add(&mut self, statement: Stmt) -> (r: Result<(), IoError>)
        ensures
            r is Ok,
            final(self).written() == old(self).written() + statement@.line(),
    {
        statement.write_to(&mut self.text);
        self.text.push('\n');
        assert(self.text@ =~= old(self).text@ + statement@.line());
        Ok(())
    }
}

} // verus!
