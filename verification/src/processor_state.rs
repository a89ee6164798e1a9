use vstd::prelude::*;

verus! {

/// Where the background job that computes a pattern stands.
#[derive(Clone, Copy, PartialEq, Eq, Structural, Debug)]
pub enum ProcessorPhase {
    /// No processor has been made yet.
    Idle,
    /// A processor is computing.
    Running,
    /// A processor finished; its output has not been shown yet.
    Finished,
    /// A processor is ready for the next command.
    Empty,
}

/// What to do with a command to compute a pattern.
#[derive(Clone, Copy, PartialEq, Eq, Structural, Debug)]
pub enum StartAction {
    /// Make a processor and start it on the command.
    CreateAndRun,
    /// Start the waiting processor on the command.
    Run,
    /// Drop the command: a job is running, or its output is still to be shown.
    Ignore,
}

/// What a command does in each phase, and the phase it leaves.
pub open spec fn spec_start_command(phase: ProcessorPhase) -> (StartAction, ProcessorPhase) {
    match phase {
        ProcessorPhase::Idle => (StartAction::CreateAndRun, ProcessorPhase::Running),
        ProcessorPhase::Empty => (StartAction::Run, ProcessorPhase::Running),
        ProcessorPhase::Finished => (StartAction::Ignore, ProcessorPhase::Finished),
        ProcessorPhase::Running => (StartAction::Ignore, ProcessorPhase::Running),
    }
}

/// What a command does in each phase, and the phase it leaves.
pub fn start_command(phase: ProcessorPhase) -> (r: (StartAction, ProcessorPhase))
    ensures
        r == spec_start_command(phase),
{
    match phase {
        ProcessorPhase::Idle => (StartAction::CreateAndRun, ProcessorPhase::Running),
        ProcessorPhase::Empty => (StartAction::Run, ProcessorPhase::Running),
        ProcessorPhase::Finished => (StartAction::Ignore, ProcessorPhase::Finished),
        ProcessorPhase::Running => (StartAction::Ignore, ProcessorPhase::Running),
    }
}

/// A command starts a job exactly when none is running and no output waits to be shown; a frame
/// never leaves a finished job's output waiting, and shows it when it leaves a job.
pub proof fn lemma_jobs_run_one_at_a_time(phase: ProcessorPhase, job_done: bool)
    ensures
        (spec_start_command(phase).0 != StartAction::Ignore) <==> (phase == ProcessorPhase::Idle || phase
            == ProcessorPhase::Empty),
        spec_start_command(phase).0 != StartAction::Ignore ==> spec_start_command(phase).1 == ProcessorPhase::Running,
        spec_poll(phase, job_done).0 != ProcessorPhase::Finished,
        spec_poll(phase, job_done).1 <==> (phase == ProcessorPhase::Finished || (phase == ProcessorPhase::Running
            && job_done)),
{
}

/// Once a frame: a running job that is done finishes, and a finished job's output is shown,
/// leaving its processor ready.
pub open spec fn spec_poll(phase: ProcessorPhase, job_done: bool) -> (ProcessorPhase, bool) {
    match phase {
        ProcessorPhase::Running => if job_done {
            (ProcessorPhase::Empty, true)
        } else {
            (ProcessorPhase::Running, false)
        },
        ProcessorPhase::Finished => (ProcessorPhase::Empty, true),
        _ => (phase, false),
    }
}

/// Once a frame: the next phase, and whether to show the finished job's output now.
pub fn poll(phase: ProcessorPhase, job_done: bool) -> (r: (ProcessorPhase, bool))
    ensures
        r == spec_poll(phase, job_done),
{
    let phase = match phase {
        ProcessorPhase::Running => if job_done {
            ProcessorPhase::Finished
        } else {
            ProcessorPhase::Running
        },
        other => other,
    };
    match phase {
        ProcessorPhase::Finished => (ProcessorPhase::Empty, true),
        other => (other, false),
    }
}

} // verus!
