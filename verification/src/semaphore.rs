//! The permits by which a pool counts what is lent out.
use tokio::sync::Semaphore;
use vstd::prelude::*;

verus! {

/// `tokio::sync::Semaphore`, of which only the names below are known.
#[verifier::external_type_specification]
#[verifier::external_body]
pub struct ExSemaphore(tokio::sync::Semaphore);

/// The largest number of permits that a semaphore can have, `Semaphore::MAX_PERMITS`.
pub open spec fn max_permits() -> nat {
    (usize::MAX / 8) as nat
}

/// The number of permits that a semaphore has available.
pub uninterp spec fn semaphore_permits(semaphore: Semaphore) -> nat;

/// Whether a semaphore has been closed.
pub uninterp spec fn semaphore_closed(semaphore: Semaphore) -> bool;

/// `tokio::sync::Semaphore::new`: an open semaphore with the given number of permits.
#[verifier::external_body]
pub(crate) fn semaphore_new(permits: usize) -> (semaphore: Semaphore)
    requires
        permits <= max_permits(),
    ensures
        semaphore_permits(semaphore) == permits,
        !semaphore_closed(semaphore),
{
    Semaphore::new(permits)
}

/// `tokio::sync::Semaphore::try_acquire`: takes one permit of an open semaphore, if there is
/// one, and returns whether there was. `tokio::sync::SemaphorePermit::forget` keeps the permit
/// from coming back by itself: it comes back through `semaphore_release` only.
#[verifier::external_body]
pub(crate) fn semaphore_try_acquire(semaphore: &mut Semaphore) -> (acquired: bool)
    requires
        !semaphore_closed(*old(semaphore)),
    ensures
        acquired == (semaphore_permits(*old(semaphore)) > 0),
        semaphore_permits(*final(semaphore)) == semaphore_permits(*old(semaphore)) - (if acquired {
            1int
        } else {
            0
        }),
        !semaphore_closed(*final(semaphore)),
{
    match semaphore.try_acquire() {
        Ok(permit) => {
            permit.forget();
            true
        },
        Err(_) => false,
    }
}

/// `tokio::sync::Semaphore::add_permits`: gives one permit back.
#[verifier::external_body]
pub(crate) fn semaphore_release(semaphore: &mut Semaphore)
    requires
        semaphore_permits(*old(semaphore)) < max_permits(),
    ensures
        semaphore_permits(*final(semaphore)) == semaphore_permits(*old(semaphore)) + 1,
        semaphore_closed(*final(semaphore)) == semaphore_closed(*old(semaphore)),
{
    semaphore.add_permits(1)
}

/// `tokio::sync::Semaphore::available_permits`: the number of permits available.
#[verifier::external_body]
pub(crate) fn semaphore_available(semaphore: &Semaphore) -> (permits: usize)
    ensures
        permits == semaphore_permits(*semaphore),
{
    semaphore.available_permits()
}

} // verus!
