//! An in-memory log. Every entry is the local time, a separator, and the
//! message; warnings and errors are messages with a fixed tag in front.
//! The process-wide shared instance lives with the embedding program.

use vstd::prelude::*;

verus! {

use vstd::string::StringExecFns;

use crate::clock::now_stamp;

/// The shape of a stored entry: some timestamp text, then `": "`, then
/// the message.
pub open spec fn log_line(stamp: Seq<char>, message: Seq<char>) -> Seq<char> {
    stamp + ": "@ + message
}

/// An append-only list of timestamped entries.
pub struct Logger {
    logs: Vec<String>,
}

impl Logger {
    /// The entries recorded so far, oldest first.
    pub closed spec fn entries(self) -> Seq<String> {
        self.logs@
    }

    /// A logger with no entries.
    pub fn new() -> (r: Logger)
        ensures
            r.entries().len() == 0,
    {
        Logger { logs: Vec::new() }
    }

    /// Stamps the message with the current local time, appends the entry,
    /// and returns it.
    pub fn log(&mut self, message: &str) -> (r: String)
        ensures
            exists|stamp: Seq<char>| r@ == log_line(stamp, message@),
            final(self).entries() == old(self).entries().push(r),
    {
        let stamped = now_stamp();
        let mut entry = stamped.1;
        let ghost stamp_view = entry@;
        entry.append(": ");
        entry.append(message);
        let r = entry.clone();
        self.logs.push(entry);
        proof {
            assert(r@ == log_line(stamp_view, message@));
        }
        r
    }

    /// Logs the message tagged as a warning.
    pub fn warn(&mut self, message: &str) -> (r: String)
        ensures
            exists|stamp: Seq<char>| r@ == log_line(stamp, "WARNING: "@ + message@),
            final(self).entries() == old(self).entries().push(r),
    {
        let mut tagged = String::from_str("WARNING: ");
        tagged.append(message);
        self.log(tagged.as_str())
    }

    /// Logs the message tagged as an error.
    pub fn error(&mut self, message: &str) -> (r: String)
        ensures
            exists|stamp: Seq<char>| r@ == log_line(stamp, "ERROR: "@ + message@),
            final(self).entries() == old(self).entries().push(r),
    {
        let mut tagged = String::from_str("ERROR: ");
        tagged.append(message);
        self.log(tagged.as_str())
    }

    /// A copy of every entry recorded so far.
    pub fn get_logs(&self) -> (r: Vec<String>)
        ensures
            r@ == self.entries(),
    {
        let r = self.logs.clone();
        proof {
            assert forall|i: int| 0 <= i < r@.len() implies r@[i] == self.logs@[i] by {
                assert(cloned::<String>(self.logs@[i], r@[i]));
            }
            assert(r@ =~= self.logs@);
        }
        r
    }

    /// Discards every entry.
    pub fn clear_logs(&mut self) -> (r: &'static str)
        ensures
            final(self).entries().len() == 0,
            r@ == "Logs cleared"@,
    {
        self.logs.clear();
        "Logs cleared"
    }
}

} // verus!
