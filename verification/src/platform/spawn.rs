//! Background work: what a spawned job reports.

use vstd::prelude::*;

verus! {

/// Why a job could not be spawned.
#[derive(Debug)]
#[non_exhaustive]
pub enum SpawnError {
    /// The thread could not be created, with the text of the error.
    ThreadCreation(String),
}

impl SpawnError {
    /// The error in words.
    pub fn message(&self) -> (text: String)
        ensures
            text@ == match self {
                SpawnError::ThreadCreation(cause) => "could not create the backing thread: "@
                    + cause@,
            },
    {
        match self {
            SpawnError::ThreadCreation(cause) => {
                let mut text = "could not create the backing thread: ".to_owned();
                text.append(cause.as_str());
                text
            },
        }
    }
}

/// Why a spawned job could not be joined.
#[derive(Debug)]
#[non_exhaustive]
pub enum JoinError {
    /// Its body panicked.
    Panicked,
}

impl JoinError {
    /// The error in words.
    pub fn message(&self) -> (text: String)
        ensures
            text@ == "the spawned body panicked"@,
    {
        "the spawned body panicked".to_owned()
    }
}

/// How far a job is.
#[derive(Clone, Copy, Debug, PartialEq, Eq, Structural)]
pub enum JobStatus {
    /// Its body still runs.
    Running,
    /// Its body has finished, cleanly or not.
    Finished,
}

/// How far a job is that has finished or not.
pub open spec fn status_of(finished: bool) -> JobStatus {
    if finished {
        JobStatus::Finished
    } else {
        JobStatus::Running
    }
}

/// A spawned job.
pub trait JobHandle: Send + Sync {
    /// Waits until the body has finished.
    fn join(self: Box<Self>) -> Result<(), JoinError>;

    /// Whether the body has finished, without waiting.
    fn is_finished(&self) -> bool;

    /// How far the job is, without waiting.
    fn status(&self) -> (r: JobStatus)
        default_ensures
            exists|finished: bool| #[trigger]
                call_ensures(Self::is_finished, (self,), finished) && r == status_of(finished),
    {
        if self.is_finished() {
            JobStatus::Finished
        } else {
            JobStatus::Running
        }
    }
}

/// What a job does.
pub trait JobBody: Send {
    /// Does it.
    fn run(self: Box<Self>);
}

/// Where jobs are spawned.
pub trait Spawn: Send + Sync {
    /// Spawns a job under a name, with a stack of the given size.
    fn spawn(
        &self,
        name: String,
        stack_size: Option<usize>,
        body: Box<dyn JobBody>,
    ) -> Result<Box<dyn JobHandle>, SpawnError>;
}

/// Spawns one thread per job.
#[derive(Clone, Copy, Debug)]
pub struct ThreadSpawn;

/// A job is finished exactly where it says so.
pub proof fn law_job_is_finished_where_it_says_so(finished: bool)
    ensures
        status_of(finished) is Finished <==> finished,
        status_of(finished) is Running <==> !finished,
{
}

} // verus!
