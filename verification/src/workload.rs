//! What every worker runs: a connection string, the configured query, and
//! the two flags that pick one of the four flavors of a unit of work —
//! direct, prepared, transactional, or prepared inside a transaction.

use vstd::prelude::*;
use vstd::string::StringExecFns;
use crate::dsn::Dsn;
use crate::dsn::render_spec;

verus! {

/// One worker's job description; immutable after construction and
/// duplicated to every worker.
pub struct Workload {
    /// Where to connect.
    pub dsn: Dsn,
    /// The configured query; empty means the trivial self-update of the
    /// shared worker table.
    pub query: String,
    /// Wrap each unit of work in a transaction.
    pub transactional: bool,
    /// Prepare the statement before running it.
    pub prepared: bool,
}

/// The four flavors of a unit of work.
#[derive(Clone, Copy, PartialEq, Eq, Structural, Debug)]
pub enum WorkloadType {
    /// Run the statement directly.
    Default,
    /// Begin, run the statement, commit.
    Transactional,
    /// Prepare the statement, then run it.
    Prepared,
    /// Begin, prepare and run the statement, commit.
    PreparedTransactional,
}

/// Which flavor the two flags pick.
pub open spec fn w_type_spec(transactional: bool, prepared: bool) -> WorkloadType {
    if transactional && prepared {
        WorkloadType::PreparedTransactional
    } else if transactional {
        WorkloadType::Transactional
    } else if prepared {
        WorkloadType::Prepared
    } else {
        WorkloadType::Default
    }
}

/// The text of a boolean.
pub open spec fn bool_text(b: bool) -> Seq<char> {
    if b {
        "true"@
    } else {
        "false"@
    }
}

/// The statement one unit of work runs: the configured query, or, when none
/// is set, an update of the worker's own row in the shared worker table.
pub open spec fn statement_spec(w: Workload) -> Seq<char> {
    if w.query@.len() == 0 {
        "update pg_tps_optimizer set id=$1 where id=$1"@
    } else {
        w.query@
    }
}

/// The text of a boolean, as an owned piece of the workload description.
fn bool_str(b: bool) -> (r: &'static str)
    ensures
        r@ == bool_text(b),
{
    if b {
        "true"
    } else {
        "false"
    }
}

impl Workload {
    /// Packs a job description.
    pub fn new(dsn: Dsn, query: String, transactional: bool, prepared: bool) -> (w: Workload)
        ensures
            w.dsn == dsn,
            w.query == query,
            w.transactional == transactional,
            w.prepared == prepared,
    {
        Workload { dsn, query, transactional, prepared }
    }

    /// The duplicate handed to each worker.
    pub fn clone(&self) -> (w: Workload)
        ensures
            w.dsn.kv@ == self.dsn.kv@,
            w.dsn.ssl_mode@ == self.dsn.ssl_mode@,
            w.query@ == self.query@,
            w.transactional == self.transactional,
            w.prepared == self.prepared,
    {
        Workload {
            dsn: self.dsn.copy(),
            query: self.query.clone(),
            transactional: self.transactional,
            prepared: self.prepared,
        }
    }

    /// A readable description: the connection string and the two flags.
    pub fn as_string(&self) -> (res: String)
        ensures
            res@ == "dsn:"@ + render_spec(self.dsn.kv@) + "\ntransactional: "@ + bool_text(
                self.transactional,
            ) + "\nprepared: "@ + bool_text(self.prepared),
    {
        let mut out = String::new();
        out.append("dsn:");
        let d = self.dsn.to_string();
        out.append(d.as_str());
        out.append("\ntransactional: ");
        out.append(bool_str(self.transactional));
        out.append("\nprepared: ");
        out.append(bool_str(self.prepared));
        out
    }

    /// Which flavor of work this job runs.
    pub fn w_type(&self) -> (t: WorkloadType)
        ensures
            t == w_type_spec(self.transactional, self.prepared),
    {
        match (self.transactional, self.prepared) {
            (false, false) => WorkloadType::Default,
            (true, false) => WorkloadType::Transactional,
            (false, true) => WorkloadType::Prepared,
            (true, true) => WorkloadType::PreparedTransactional,
        }
    }

    /// The statement a unit of work runs.
    pub fn statement(&self) -> (res: String)
        ensures
            res@ == statement_spec(*self),
    {
        if self.query.as_str().is_empty() {
            "update pg_tps_optimizer set id=$1 where id=$1".to_owned()
        } else {
            self.query.clone()
        }
    }
}

} // verus!
