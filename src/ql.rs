//! Limits that guard pipeline parsing and execution.
use vstd::prelude::*;

verus! {

/// Bounds on what a pipeline may ask for.
#[derive(Clone, Copy, Debug, PartialEq, Eq, Structural)]
pub struct SecurityLimits {
    pub max_pipeline_length: usize,
    pub max_nested_pipelines: usize,
    pub max_slug_length: usize,
    pub max_text_length: usize,
}

impl Default for SecurityLimits {
    fn default() -> (r: Self)
        ensures
            r == (SecurityLimits {
                max_pipeline_length: 50,
                max_nested_pipelines: 3,
                max_slug_length: 1024,
                max_text_length: 1_000_000,
            }),
    {
        SecurityLimits {
            max_pipeline_length: 50,
            max_nested_pipelines: 3,
            max_slug_length: 1024,
            max_text_length: 1_000_000,
        }
    }
}

/// Why a pipeline was refused.
#[derive(Clone, Copy, Debug, PartialEq, Eq, Structural)]
pub enum LimitError {
    /// More steps than allowed.
    PipelineTooLong,
    /// Sub-pipelines nested deeper than allowed.
    NestedTooDeep,
}

/// The pipeline front end and its limits.
pub struct SekejapQL {
    limits: SecurityLimits,
}

impl SekejapQL {
    pub closed spec fn spec_limits(&self) -> SecurityLimits {
        self.limits
    }

    /// The default limits.
    pub fn new() -> (r: Self)
        ensures
            r.spec_limits() == (SecurityLimits {
                max_pipeline_length: 50,
                max_nested_pipelines: 3,
                max_slug_length: 1024,
                max_text_length: 1_000_000,
            }),
    {
        SekejapQL { limits: SecurityLimits::default() }
    }

    pub fn with_limits(limits: SecurityLimits) -> (r: Self)
        ensures
            r.spec_limits() == limits,
    {
        SekejapQL { limits }
    }

    pub fn limits(&self) -> (r: SecurityLimits)
        ensures
            r == self.spec_limits(),
    {
        self.limits
    }

    /// A pipeline of `len` steps nested `depth` levels deep is accepted when
    /// both are within the limits.
    pub fn check_pipeline(&self, len: usize, depth: usize) -> (r: Result<(), LimitError>)
        ensures
            len > self.spec_limits().max_pipeline_length ==> r == Err::<(), LimitError>(LimitError::PipelineTooLong),
            len <= self.spec_limits().max_pipeline_length && depth > self.spec_limits().max_nested_pipelines ==> r == Err::<
                (),
                LimitError,
            >(LimitError::NestedTooDeep),
            len <= self.spec_limits().max_pipeline_length && depth <= self.spec_limits().max_nested_pipelines ==> r is Ok,
    {
        if len > self.limits.max_pipeline_length {
            return Err(LimitError::PipelineTooLong);
        }
        if depth > self.limits.max_nested_pipelines {
            return Err(LimitError::NestedTooDeep);
        }
        Ok(())
    }
}

} // verus!
