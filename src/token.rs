//! A cancellation flag shared between the host and native asynchronous work.
use vstd::prelude::*;
use tokio_util::sync::CancellationToken as TokioToken;

verus! {

#[verifier::external_type_specification]
#[verifier::external_body]
pub struct ExCancellationToken(TokioToken);

/// A handle on a shared, thread-safe cancellation flag.
///
/// The flag is the only state, and it is only ever set or read atomically;
/// it is released when its last handle is dropped. Beside it the handle
/// records whether a cancel went through it (or through the handle it was
/// shared from, before sharing), and whether another handle may reach the
/// same flag.
pub struct CancellationToken {
    token: TokioToken,
    requested: Ghost<bool>,
    shared: Ghost<bool>,
}

impl CancellationToken {
    /// A cancel went through this handle, so the flag is set for good.
    pub closed spec fn cancel_requested(&self) -> bool {
        self.requested@
    }

    /// Another handle may reach the same flag and set it.
    pub closed spec fn is_shared(&self) -> bool {
        self.shared@
    }

    /// Whether the shared flag is set now.
    ///
    /// Relies on tokio_util's `CancellationToken::is_cancelled`: it reads the
    /// flag, which only `cancel` sets and nothing clears. So a flag that a
    /// cancel through this handle set reads as set, and a flag that no other
    /// handle reaches reads as set exactly when a cancel went through this one.
    #[verifier::external_body]
    pub fn is_cancelled(&self) -> (r: bool)
        ensures
            self.cancel_requested() ==> r,
            !self.is_shared() ==> r == self.cancel_requested(),
    {
        self.token.is_cancelled()
    }

    /// A handle on a fresh flag.
    ///
    /// Relies on tokio_util's `CancellationToken::new`: the token it makes is
    /// not cancelled, and no other handle reaches it yet.
    #[verifier::external_body]
    fn fresh() -> (r: CancellationToken)
        ensures
            !r.cancel_requested(),
            !r.is_shared(),
    {
        CancellationToken { token: TokioToken::new(), requested: Ghost(false), shared: Ghost(false) }
    }

    /// Sets the flag and records it.
    ///
    /// Relies on tokio_util's `CancellationToken::cancel`: once it returns the
    /// flag is set, for good; cancelling again does nothing more.
    #[verifier::external_body]
    fn set_flag(&mut self)
        ensures
            final(self).cancel_requested(),
            final(self).is_shared() == old(self).is_shared(),
    {
        self.token.cancel();
        self.requested = Ghost(true);
    }

    /// A second handle on the same flag.
    ///
    /// Relies on tokio_util's `Clone` for `CancellationToken`: the clone reads
    /// and sets the flag that this handle does.
    #[verifier::external_body]
    fn clone_handle(&mut self) -> (r: CancellationToken)
        ensures
            r.cancel_requested() == old(self).cancel_requested(),
            final(self).cancel_requested() == old(self).cancel_requested(),
            r.is_shared(),
            final(self).is_shared(),
    {
        self.shared = Ghost(true);
        CancellationToken { token: self.token.clone(), requested: self.requested, shared: Ghost(true) }
    }

    /// Another handle on the same flag, for work that observes it. Both
    /// handles count as shared from then on.
    pub fn share(&mut self) -> (r: CancellationToken)
        ensures
            r.cancel_requested() == old(self).cancel_requested(),
            final(self).cancel_requested() == old(self).cancel_requested(),
            r.is_shared(),
            final(self).is_shared(),
    {
        self.clone_handle()
    }
}

/// A handle on a fresh flag that is not set and that no other handle reaches.
pub fn cancellation_token_new() -> (r: CancellationToken)
    ensures
        !r.cancel_requested(),
        !r.is_shared(),
{
    CancellationToken::fresh()
}

/// Sets the flag behind `token`; a missing handle is left alone. Returns
/// whether there was a handle.
pub fn cancellation_token_cancel(token: &mut Option<CancellationToken>) -> (r: bool)
    ensures
        r == old(token).is_some(),
        !r ==> *final(token) == *old(token),
        r ==> {
            &&& final(token).is_some()
            &&& final(token).unwrap().cancel_requested()
            &&& final(token).unwrap().is_shared() == old(token).unwrap().is_shared()
        },
{
    match token {
        Some(t) => {
            t.set_flag();
            true
        },
        None => false,
    }
}

/// Releases a handle; other handles on the same flag are not affected. A
/// missing handle is left alone. Returns whether there was a handle.
pub fn cancellation_token_free(token: Option<CancellationToken>) -> (r: bool)
    ensures
        r == token.is_some(),
{
    match token {
        Some(_) => true,
        None => false,
    }
}

} // verus!
