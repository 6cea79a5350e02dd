//! ACPI.
use vstd::prelude::*;

pub mod uacpi;

verus! {

/// Status of a successful call of uACPI.
pub const UACPI_STATUS_OK: u32 = 0;

/// What a status of uACPI means: success is `Ok`, and any other status an
/// error with the text of that status, or with a general one where it has none.
pub fn status_to_result(status: u32, text: Option<&'static str>) -> (r: Result<
    (),
    &'static str,
>)
    ensures
        r is Ok <==> status == UACPI_STATUS_OK,
        r is Ok <==> status == 0,
        status != UACPI_STATUS_OK ==> (r matches Err(e) && e@ == match text {
            Some(t) => t@,
            None => "Unknown error"@,
        }),
{
    if status == UACPI_STATUS_OK {
        Ok(())
    } else {
        match text {
            Some(t) => Err(t),
            None => Err("Unknown error"),
        }
    }
}

/// The steps of bringing up uACPI, in their order.
#[derive(Debug, Clone, Copy, PartialEq, Eq, Structural)]
pub enum InitStep {
    /// Set it up.
    Initialize,
    /// Load the namespace.
    LoadNamespace,
    /// Initialize the namespace.
    InitializeNamespace,
    /// Finish the setup of general purpose events.
    FinalizeGpe,
    /// Nothing is left to do.
    Done,
}

/// The first step.
pub fn first_step() -> (step: InitStep)
    ensures
        step == InitStep::Initialize,
{
    InitStep::Initialize
}

/// The step after one.
pub open spec fn step_after(step: InitStep) -> InitStep {
    match step {
        InitStep::Initialize => InitStep::LoadNamespace,
        InitStep::LoadNamespace => InitStep::InitializeNamespace,
        InitStep::InitializeNamespace => InitStep::FinalizeGpe,
        InitStep::FinalizeGpe => InitStep::Done,
        InitStep::Done => InitStep::Done,
    }
}

/// The steps follow each other in their order, and after the last nothing is
/// left to do.
pub proof fn law_steps_are_in_order()
    ensures
        step_after(InitStep::Initialize) == InitStep::LoadNamespace,
        step_after(InitStep::LoadNamespace) == InitStep::InitializeNamespace,
        step_after(InitStep::InitializeNamespace) == InitStep::FinalizeGpe,
        step_after(InitStep::FinalizeGpe) == InitStep::Done,
        step_after(InitStep::Done) == InitStep::Done,
{
}

/// The step after one whose call ended with a status, or the error to give up
/// with.
pub fn next_step(step: InitStep, status: u32, text: Option<&'static str>) -> (r: Result<
    InitStep,
    &'static str,
>)
    ensures
        status == UACPI_STATUS_OK ==> r == Ok::<InitStep, &'static str>(step_after(step)),
        status != UACPI_STATUS_OK ==> (r matches Err(e) && e@ == match text {
            Some(t) => t@,
            None => "Unknown error"@,
        }),
{
    match status_to_result(status, text) {
        Err(e) => Err(e),
        Ok(()) => Ok(
            match step {
                InitStep::Initialize => InitStep::LoadNamespace,
                InitStep::LoadNamespace => InitStep::InitializeNamespace,
                InitStep::InitializeNamespace => InitStep::FinalizeGpe,
                InitStep::FinalizeGpe => InitStep::Done,
                InitStep::Done => InitStep::Done,
            },
        ),
    }
}

} // verus!
