//! The synthetic scenario for harness self-test: requests perform no
//! network work at all (the caller just waits a random few milliseconds
//! and reports success), so neither connection nor preparation is
//! needed.

use vstd::prelude::*;
use crate::lb::{BaseJob, CommonArgs, HasCommonArgs};

verus! {

/// Options of the synthetic scenario: only the shared options.
#[derive(Debug, Clone)]
pub struct TestArgs {
    pub common: CommonArgs,
}

impl HasCommonArgs for TestArgs {
    open spec fn spec_common(&self) -> CommonArgs {
        self.common
    }

    fn common(&self) -> (c: &CommonArgs) {
        &self.common
    }
}

/// Per-worker state of the synthetic scenario.
pub struct TestJob {
    pub base: BaseJob,
    pub args: TestArgs,
}

impl TestJob {
    pub fn new(tid: usize, args: &TestArgs) -> (r: TestJob)
        ensures
            r.base.wf(),
            r.base.tid == tid,
            r.base.count == 0,
            r.base.success == 0,
            r.args.common.bind_dn@ == args.common.bind_dn@,
            r.args.common.bind_pw@ == args.common.bind_pw@,
            r.args.common.url@ == args.common.url@,
            r.args.common.concurrency == args.common.concurrency,
            r.args.common.number == args.common.number,
    {
        TestJob { base: BaseJob::new(tid), args: TestArgs { common: args.common.duplicate() } }
    }
}

} // verus!
