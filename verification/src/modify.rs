//! The modify scenario: each request replaces one attribute value on the
//! worker's next numbered entry.

use vstd::prelude::*;
use crate::lb::{BaseJob, CommonArgs, HasCommonArgs};
use crate::strutil::spec_dec_digits;
use crate::entry::{spec_cn_dn, numbered_dn};

verus! {

/// Options of the modify scenario.
#[derive(Debug, Clone)]
pub struct ModifyArgs {
    pub common: CommonArgs,
    /// Attribute to modify.
    pub attr: String,
    /// Value to set.
    pub value: String,
    /// Base DN of the entries being modified.
    pub base_dn: String,
}

impl HasCommonArgs for ModifyArgs {
    open spec fn spec_common(&self) -> CommonArgs {
        self.common
    }

    fn common(&self) -> (c: &CommonArgs) {
        &self.common
    }
}

/// Per-worker state of the modify scenario.
pub struct ModifyJob {
    pub base: BaseJob,
    pub args: ModifyArgs,
}

/// What one modify request sends: the target entry's distinguished name
/// and the one replace operation.
pub struct ModifyRequest {
    pub dn: String,
    pub attr: String,
    pub value: String,
}

impl ModifyJob {
    pub fn new(tid: usize, args: &ModifyArgs) -> (r: ModifyJob)
        ensures
            r.base.wf(),
            r.base.tid == tid,
            r.base.count == 0,
            r.base.success == 0,
            r.base.start_index == 0,
            r.args.attr@ == args.attr@,
            r.args.value@ == args.value@,
            r.args.base_dn@ == args.base_dn@,
            r.args.common.bind_dn@ == args.common.bind_dn@,
            r.args.common.bind_pw@ == args.common.bind_pw@,
            r.args.common.url@ == args.common.url@,
            r.args.common.concurrency == args.common.concurrency,
            r.args.common.number == args.common.number,
    {
        ModifyJob {
            base: BaseJob::new(tid),
            args: ModifyArgs {
                common: args.common.duplicate(),
                attr: args.attr.clone(),
                value: args.value.clone(),
                base_dn: args.base_dn.clone(),
            },
        }
    }

    /// The next request: replace the configured attribute with the
    /// configured value on the worker's next numbered entry.
    pub fn request_plan(&self) -> (r: ModifyRequest)
        requires
            self.base.start_index + self.base.count <= u64::MAX,
        ensures
            r.dn@ == spec_cn_dn(
                spec_dec_digits(self.base.start_index + self.base.count),
                self.args.base_dn@,
            ),
            r.attr@ == self.args.attr@,
            r.value@ == self.args.value@,
    {
        let dn = numbered_dn(
            self.base.start_index as u64 + self.base.count as u64,
            self.args.base_dn.as_str(),
        );
        ModifyRequest { dn, attr: self.args.attr.clone(), value: self.args.value.clone() }
    }
}

} // verus!
