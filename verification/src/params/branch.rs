//! Standard or zero-knowledge, with a payload on the zero-knowledge path.

use crate::params::spec::{LogInvRate, ZkSpec};
use vstd::prelude::*;

verus! {

/// Standard, without payload, or zero-knowledge, with payload `T`.
#[derive(Debug)]
pub enum Branch<T> {
    Standard,
    ZeroKnowledge(T),
}

impl<T: Copy> Clone for Branch<T> {
    fn clone(&self) -> (r: Self)
        ensures
            r == *self,
    {
        *self
    }
}

impl<T: Copy> Copy for Branch<T> {

}

impl<T> Branch<T> {
    /// Is this the zero-knowledge path?
    pub fn is_zk(&self) -> (r: bool)
        ensures
            r == self is ZeroKnowledge,
    {
        match self {
            Branch::Standard => false,
            Branch::ZeroKnowledge(_) => true,
        }
    }

    /// Transform the payload; the standard path stays as it is.
    pub fn map<U, F: FnOnce(T) -> U>(self, f: F) -> (r: Branch<U>)
        requires
            self matches Branch::ZeroKnowledge(t) ==> f.requires((t,)),
        ensures
            match self {
                Branch::Standard => r is Standard,
                Branch::ZeroKnowledge(t) => r matches Branch::ZeroKnowledge(u) && f.ensures((t,), u),
            },
    {
        match self {
            Branch::Standard => Branch::Standard,
            Branch::ZeroKnowledge(t) => Branch::ZeroKnowledge(f(t)),
        }
    }

    /// The same path, with a reference to the payload.
    pub fn as_ref(&self) -> (r: Branch<&T>)
        ensures
            match self {
                Branch::Standard => r is Standard,
                Branch::ZeroKnowledge(t) => r matches Branch::ZeroKnowledge(u) && *u == *t,
            },
    {
        match self {
            Branch::Standard => Branch::Standard,
            Branch::ZeroKnowledge(t) => Branch::ZeroKnowledge(t),
        }
    }
}

/// What building a zero-knowledge round needs: the specification and the rate of the
/// masks' code.
#[derive(Clone, Copy, Debug)]
pub struct RoundBuildPayload<'a> {
    pub zk_spec: ZkSpec<'a>,
    pub c_zk_log_inv_rate: LogInvRate,
}

/// How a round is built.
pub type RoundBuildMode<'a> = Branch<RoundBuildPayload<'a>>;

/// Which bound out-of-domain samples must meet; the payload is the rate of the masks'
/// code.
pub type OodMode = Branch<LogInvRate>;

} // verus!
