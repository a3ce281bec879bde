//! The bind scenario: each request authenticates against the server,
//! optionally under a DN generated from a template and a random id.

use vstd::prelude::*;
use crate::lb::{BaseJob, CommonArgs, HasCommonArgs};
use crate::strutil::{spec_contains_char, spec_subst_id, contains_char, subst_id};

verus! {

/// Options of the bind scenario: the shared options plus an optional id
/// range for random DN generation (`last == 0` means no range).
#[derive(Debug, Clone)]
pub struct BindArgs {
    pub common: CommonArgs,
    /// First id for random DN generation.
    pub first: u32,
    /// Last id for random DN generation; zero for none.
    pub last: u32,
}

impl HasCommonArgs for BindArgs {
    open spec fn spec_common(&self) -> CommonArgs {
        self.common
    }

    fn common(&self) -> (c: &CommonArgs) {
        &self.common
    }
}

/// Whether the bind DN template is subject to id substitution.
pub open spec fn spec_bind_has_range(args: BindArgs) -> bool {
    spec_contains_char(args.common.bind_dn@, '%') && args.last > 0
}

/// Per-worker state of the bind scenario.
pub struct BindJob {
    pub base: BaseJob,
    pub args: BindArgs,
    /// Number of candidate ids; zero when the DN is used verbatim.
    pub id_range: u32,
}

impl BindJob {
    pub open spec fn wf(self) -> bool {
        &&& self.base.wf()
        &&& (self.id_range > 0 ==> self.args.first <= self.args.last)
        &&& (self.id_range > 0 <==> spec_bind_has_range(self.args))
    }

    /// A fresh worker: the id range is active when the DN template holds
    /// a `%` pattern and a last id was given.
    pub fn new(tid: usize, args: &BindArgs) -> (r: BindJob)
        requires
            spec_bind_has_range(*args) ==> args.first <= args.last && args.last - args.first
                < u32::MAX,
        ensures
            r.wf(),
            r.base.tid == tid,
            r.base.count == 0,
            r.base.success == 0,
            r.args.common.bind_dn@ == args.common.bind_dn@,
            r.args.common.bind_pw@ == args.common.bind_pw@,
            r.args.common.url@ == args.common.url@,
            r.args.common.concurrency == args.common.concurrency,
            r.args.common.number == args.common.number,
            r.args.first == args.first,
            r.args.last == args.last,
            r.id_range == if spec_bind_has_range(*args) {
                args.last - args.first + 1
            } else {
                0int
            },
    {
        let id_range: u32 = if contains_char(args.common.bind_dn.as_str(), '%') && args.last > 0 {
            args.last - args.first + 1
        } else {
            0
        };
        BindJob {
            base: BaseJob::new(tid),
            args: BindArgs {
                common: args.common.duplicate(),
                first: args.first,
                last: args.last,
            },
            id_range,
        }
    }

    /// The DN the next bind request uses: the configured DN verbatim, or
    /// the template with a random id from the configured range
    /// substituted in.
    pub fn generate_dn(&self) -> (r: String)
        requires
            self.wf(),
        ensures
            self.id_range == 0 ==> r@ == self.args.common.bind_dn@,
            self.id_range > 0 ==> exists|id: u32|
                self.args.first <= id <= self.args.last && r@ == spec_subst_id(
                    self.args.common.bind_dn@,
                    id as int,
                ),
    {
        if self.id_range > 0 {
            let id = crate::rng::random_in_range_u32(self.args.first, self.args.last);
            let r = subst_id(self.args.common.bind_dn.as_str(), id);
            proof {
                assert(self.args.first <= id <= self.args.last && r@ == spec_subst_id(
                    self.args.common.bind_dn@,
                    id as int,
                ));
            }
            r
        } else {
            self.args.common.bind_dn.clone()
        }
    }
}

} // verus!
