//! The add scenario: each request adds one person entry, named either by
//! a fresh random identifier or by the worker's running entry number.

use vstd::prelude::*;
use crate::lb::{BaseJob, CommonArgs, HasCommonArgs};
use crate::strutil::spec_dec_digits;
use crate::entry::{spec_cn_dn, cn_dn, person_attrs};

verus! {

/// Options of the add scenario.
#[derive(Debug, Clone)]
pub struct AddArgs {
    pub common: CommonArgs,
    /// Name new entries by a random identifier instead of a number.
    pub uuid: bool,
    /// Base DN under which entries are created.
    pub base_dn: String,
}

impl HasCommonArgs for AddArgs {
    open spec fn spec_common(&self) -> CommonArgs {
        self.common
    }

    fn common(&self) -> (c: &CommonArgs) {
        &self.common
    }
}

/// Per-worker state of the add scenario.
pub struct AddJob {
    pub base: BaseJob,
    pub args: AddArgs,
}

/// What one add request sends: the new entry's common name, its
/// distinguished name, and its attribute list.
pub struct AddRequest {
    pub cn: String,
    pub dn: String,
    pub attrs: Vec<(String, Vec<String>)>,
}

#[verifier::external_type_specification]
#[verifier::external_body]
pub struct ExUuid(uuid::Uuid);

/// Relies on uuid::Uuid::new_v4: a freshly generated random identifier.
#[verifier::external_body]
fn new_v4_uuid() -> uuid::Uuid {
    uuid::Uuid::new_v4()
}

/// Relies on uuid's Display implementation: the hyphenated textual form,
/// 36 characters long.
#[verifier::external_body]
fn uuid_string(u: &uuid::Uuid) -> (r: String)
    ensures
        r@.len() == 36,
{
    u.to_string()
}

impl AddJob {
    pub fn new(tid: usize, args: &AddArgs) -> (r: AddJob)
        ensures
            r.base.wf(),
            r.base.tid == tid,
            r.base.count == 0,
            r.base.success == 0,
            r.base.start_index == 0,
            r.args.uuid == args.uuid,
            r.args.base_dn@ == args.base_dn@,
            r.args.common.bind_dn@ == args.common.bind_dn@,
            r.args.common.bind_pw@ == args.common.bind_pw@,
            r.args.common.url@ == args.common.url@,
            r.args.common.concurrency == args.common.concurrency,
            r.args.common.number == args.common.number,
    {
        AddJob {
            base: BaseJob::new(tid),
            args: AddArgs {
                common: args.common.duplicate(),
                uuid: args.uuid,
                base_dn: args.base_dn.clone(),
            },
        }
    }

    /// The entry the next add request creates: named by a fresh random
    /// identifier when so configured, else by the worker's next entry
    /// number; a person entry with the worker index as surname.
    pub fn request_plan(&self) -> (r: AddRequest)
        requires
            self.base.wf(),
            !self.args.uuid ==> self.base.start_index + self.base.count <= u64::MAX,
        ensures
            self.args.uuid ==> r.cn@.len() == 36,
            !self.args.uuid ==> r.cn@ == spec_dec_digits(
                self.base.start_index + self.base.count,
            ),
            r.dn@ == spec_cn_dn(r.cn@, self.args.base_dn@),
            r.attrs@.len() == 4,
            r.attrs@[0].0@ == "objectClass"@ && r.attrs@[0].1@.len() == 1 && r.attrs@[0].1@[0]@
                == "person"@,
            r.attrs@[1].0@ == "cn"@ && r.attrs@[1].1@.len() == 1 && r.attrs@[1].1@[0]@ == r.cn@,
            r.attrs@[2].0@ == "sn"@ && r.attrs@[2].1@.len() == 1 && r.attrs@[2].1@[0]@
                == spec_dec_digits(self.base.tid as int),
            r.attrs@[3].0@ == "userPassword"@ && r.attrs@[3].1@.len() == 1 && r.attrs@[3].1@[0]@
                == "secret"@,
    {
        let cn: String = if self.args.uuid {
            let u = new_v4_uuid();
            uuid_string(&u)
        } else {
            crate::strutil::u64_to_dec(self.base.start_index as u64 + self.base.count as u64)
        };
        let dn = cn_dn(cn.as_str(), self.args.base_dn.as_str());
        let tid_str = crate::strutil::u64_to_dec(self.base.tid as u64);
        let attrs = person_attrs(cn.as_str(), tid_str.as_str(), "secret");
        AddRequest { cn, dn, attrs }
    }
}

} // verus!
