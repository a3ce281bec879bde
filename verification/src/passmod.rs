//! The password-change scenario: each request changes the password of
//! the worker's next numbered entry through the password-modify extended
//! operation.

use vstd::prelude::*;
use crate::lb::{BaseJob, CommonArgs, HasCommonArgs};
use crate::strutil::spec_dec_digits;
use crate::entry::{spec_cn_dn, numbered_dn};

verus! {

/// Options of the password-change scenario.
#[derive(Debug, Clone)]
pub struct PassmodArgs {
    pub common: CommonArgs,
    /// New password to set.
    pub new_password: String,
    /// Old password; the bind password when absent.
    pub old_password: Option<String>,
    /// Base DN of the entries whose password changes.
    pub base_dn: String,
}

impl HasCommonArgs for PassmodArgs {
    open spec fn spec_common(&self) -> CommonArgs {
        self.common
    }

    fn common(&self) -> (c: &CommonArgs) {
        &self.common
    }
}

/// Per-worker state of the password-change scenario.
pub struct PassmodJob {
    pub base: BaseJob,
    pub args: PassmodArgs,
}

/// What one password-change request sends.
pub struct PassmodRequest {
    pub user_dn: String,
    pub old_pass: String,
    pub new_pass: String,
}

impl PassmodJob {
    pub fn new(tid: usize, args: &PassmodArgs) -> (r: PassmodJob)
        ensures
            r.base.wf(),
            r.base.tid == tid,
            r.base.count == 0,
            r.base.success == 0,
            r.base.start_index == 0,
            r.args.new_password@ == args.new_password@,
            (r.args.old_password is Some) == (args.old_password is Some),
            args.old_password is Some ==> r.args.old_password->0@ == args.old_password->0@,
            r.args.base_dn@ == args.base_dn@,
            r.args.common.bind_dn@ == args.common.bind_dn@,
            r.args.common.bind_pw@ == args.common.bind_pw@,
            r.args.common.url@ == args.common.url@,
            r.args.common.concurrency == args.common.concurrency,
            r.args.common.number == args.common.number,
    {
        let old_password: Option<String> = match &args.old_password {
            Some(p) => Some(p.clone()),
            None => None,
        };
        PassmodJob {
            base: BaseJob::new(tid),
            args: PassmodArgs {
                common: args.common.duplicate(),
                new_password: args.new_password.clone(),
                old_password,
                base_dn: args.base_dn.clone(),
            },
        }
    }

    /// The next request: change the password of the worker's next
    /// numbered entry, using the configured old password or, absent one,
    /// the bind password.
    pub fn request_plan(&self) -> (r: PassmodRequest)
        requires
            self.base.start_index + self.base.count <= u64::MAX,
        ensures
            r.user_dn@ == spec_cn_dn(
                spec_dec_digits(self.base.start_index + self.base.count),
                self.args.base_dn@,
            ),
            self.args.old_password is Some ==> r.old_pass@ == self.args.old_password->0@,
            self.args.old_password is None ==> r.old_pass@ == self.args.common.bind_pw@,
            r.new_pass@ == self.args.new_password@,
    {
        let user_dn = numbered_dn(
            self.base.start_index as u64 + self.base.count as u64,
            self.args.base_dn.as_str(),
        );
        let old_pass: String = match &self.args.old_password {
            Some(p) => p.clone(),
            None => self.args.common.bind_pw.clone(),
        };
        PassmodRequest { user_dn, old_pass, new_pass: self.args.new_password.clone() }
    }
}

} // verus!
