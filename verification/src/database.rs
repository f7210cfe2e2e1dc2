//! A reference-counted database-connection handle: repeated connects
//! share one underlying connection and a matching number of disconnects
//! releases it. The process-wide shared instance lives with the embedding
//! program.

use vstd::prelude::*;

verus! {

/// Connection bookkeeping: how many connects are outstanding and where
/// the connection points.
pub struct DatabaseConnection {
    connection_count: i32,
    is_connected: bool,
    connection_string: String,
}

impl DatabaseConnection {
    /// How many connects are outstanding.
    pub closed spec fn count(self) -> int {
        self.connection_count as int
    }

    /// Whether the handle is currently connected.
    pub closed spec fn connected(self) -> bool {
        self.is_connected
    }

    /// The connection string of the current connection.
    pub closed spec fn target(self) -> Seq<char> {
        self.connection_string@
    }

    /// The bookkeeping is consistent: connected exactly when at least one
    /// connect is outstanding.
    pub open spec fn wf(self) -> bool {
        &&& (self.connected() <==> self.count() >= 1)
        &&& self.count() >= 0
    }

    /// A handle with no connection.
    pub fn new() -> (r: DatabaseConnection)
        ensures
            r.wf(),
            r.count() == 0,
            !r.connected(),
            r.target().len() == 0,
    {
        DatabaseConnection {
            connection_count: 0,
            is_connected: false,
            connection_string: String::new(),
        }
    }

    /// Connects, or joins the existing connection: a fresh connect stores
    /// the connection string and sets the count to one, a repeated
    /// connect only raises the count.
    pub fn connect(&mut self, connection_string: &str) -> (r: bool)
        requires
            old(self).wf(),
            old(self).count() < i32::MAX,
        ensures
            r == true,
            final(self).wf(),
            final(self).connected(),
            old(self).connected() ==> final(self).count() == old(self).count() + 1
                && final(self).target() == old(self).target(),
            !old(self).connected() ==> final(self).count() == 1
                && final(self).target() == connection_string@,
    {
        if self.is_connected {
            self.connection_count = self.connection_count + 1;
            return true;
        }
        self.connection_string = connection_string.to_owned();
        self.is_connected = true;
        self.connection_count = 1;
        true
    }

    /// Releases one outstanding connect; the last release disconnects.
    /// Returns whether there was a connection to release.
    pub fn disconnect(&mut self) -> (r: bool)
        requires
            old(self).wf(),
        ensures
            final(self).wf(),
            r == old(self).connected(),
            final(self).target() == old(self).target(),
            !old(self).connected() ==> final(self).count() == old(self).count()
                && final(self).connected() == old(self).connected(),
            old(self).connected() ==> final(self).count() == old(self).count() - 1,
            old(self).connected() ==> (final(self).connected() <==> old(self).count() > 1),
    {
        if !self.is_connected {
            return false;
        }
        self.connection_count = self.connection_count - 1;
        if self.connection_count == 0 {
            self.is_connected = false;
        }
        true
    }

    /// Whether the handle is currently connected.
    pub fn is_connected(&self) -> (r: bool)
        ensures
            r == self.connected(),
    {
        self.is_connected
    }

    /// How many connects are outstanding.
    pub fn connection_count(&self) -> (r: i32)
        ensures
            r as int == self.count(),
    {
        self.connection_count
    }
}

/// The starting state of the process-wide connection handle. The static
/// cell that hands every caller the same handle lives with the embedding
/// program; this is the value it starts from.
pub fn instance() -> (r: DatabaseConnection)
    ensures
        r.wf(),
        r.count() == 0,
        !r.connected(),
{
    DatabaseConnection::new()
}

} // verus!
