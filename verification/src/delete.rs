//! The delete scenario: each request removes the worker's next numbered
//! entry.

use vstd::prelude::*;
use crate::lb::{BaseJob, CommonArgs, HasCommonArgs};
use crate::strutil::spec_dec_digits;
use crate::entry::{spec_cn_dn, numbered_dn};

verus! {

/// Options of the delete scenario.
#[derive(Debug, Clone)]
pub struct DeleteArgs {
    pub common: CommonArgs,
    /// Base DN of the entries being deleted.
    pub base_dn: String,
}

impl HasCommonArgs for DeleteArgs {
    open spec fn spec_common(&self) -> CommonArgs {
        self.common
    }

    fn common(&self) -> (c: &CommonArgs) {
        &self.common
    }
}

/// Per-worker state of the delete scenario.
pub struct DeleteJob {
    pub base: BaseJob,
    pub args: DeleteArgs,
}

impl DeleteJob {
    pub fn new(tid: usize, args: &DeleteArgs) -> (r: DeleteJob)
        ensures
            r.base.wf(),
            r.base.tid == tid,
            r.base.count == 0,
            r.base.success == 0,
            r.base.start_index == 0,
            r.args.base_dn@ == args.base_dn@,
            r.args.common.bind_dn@ == args.common.bind_dn@,
            r.args.common.bind_pw@ == args.common.bind_pw@,
            r.args.common.url@ == args.common.url@,
            r.args.common.concurrency == args.common.concurrency,
            r.args.common.number == args.common.number,
    {
        DeleteJob {
            base: BaseJob::new(tid),
            args: DeleteArgs {
                common: args.common.duplicate(),
                base_dn: args.base_dn.clone(),
            },
        }
    }

    /// The distinguished name the next delete request targets.
    pub fn request_dn(&self) -> (r: String)
        requires
            self.base.start_index + self.base.count <= u64::MAX,
        ensures
            r@ == spec_cn_dn(
                spec_dec_digits(self.base.start_index + self.base.count),
                self.args.base_dn@,
            ),
    {
        numbered_dn(
            self.base.start_index as u64 + self.base.count as u64,
            self.args.base_dn.as_str(),
        )
    }
}

} // verus!
