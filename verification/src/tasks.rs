use vstd::prelude::*;


verus! {

/// The background jobs the engine runs beside the evaluation pipeline, each
/// on its own interval.  One job's failure never halts the others.
#[derive(Clone, Copy, Debug, PartialEq, Eq, Structural)]
pub enum Task {
    UpdateStatus,
}

impl Task {
    pub open spec fn interval_secs_spec(self) -> u64 {
        match self {
            Task::UpdateStatus => 600,
        }
    }

    /// How often the task runs, in seconds.
    pub fn interval_secs(&self) -> (r: u64)
        ensures
            r == self.interval_secs_spec(),
    {
        match self {
            Task::UpdateStatus => 600,
        }
    }

    pub open spec fn description_spec(self) -> Seq<char> {
        match self {
            Task::UpdateStatus => "Update status"@,
        }
    }

    /// What the task does, for the task runner's log line.
    pub fn description(&self) -> (r: &'static str)
        ensures
            r@ == self.description_spec(),
    {
        match self {
            Task::UpdateStatus => "Update status",
        }
    }
}

/// How a presence line is advertised.
#[derive(Clone, Copy, Debug, PartialEq, Eq, Structural)]
pub enum StatusKind {
    Watch,
    Play,
    Listen,
}

/// Relies on rand::random_range: the result is a uniform draw from the
/// given half-open range, which must be non-empty.
#[verifier::external_body]
fn random_below(n: usize) -> (r: usize)
    requires
        1 <= n,
    ensures
        r < n,
{
    rand::random_range(0..n)
}

/// One of the three advertised presences, drawn at random.  Whatever the
/// draw, the kind and its text belong together.
pub fn pick_status() -> (r: (StatusKind, &'static str))
    ensures
        (r.0 is Watch ==> r.1@ == "sky!help"@),
        (r.0 is Play ==> r.1@ == "stopping raids"@),
        (r.0 is Listen ==> r.1@ == "to your commands"@),
{
    let k = random_below(3);
    if k == 0 {
        (StatusKind::Watch, "sky!help")
    } else if k == 1 {
        (StatusKind::Play, "stopping raids")
    } else {
        (StatusKind::Listen, "to your commands")
    }
}

} // verus!
