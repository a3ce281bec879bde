//! The search scenario: each request runs one search, optionally with a
//! filter generated from a template and a random id; a request counts as
//! a success when it returns at least one entry.

use vstd::prelude::*;
use crate::lb::{BaseJob, CommonArgs, HasCommonArgs};
use crate::strutil::{
    spec_contains_char, spec_subst_id, spec_split, spec_trim, contains_char, subst_id,
    split_trimmed,
};

verus! {

/// The scope of a directory search.
#[derive(Debug, Clone, Copy, PartialEq, Eq, Structural)]
pub enum SearchScope {
    Base,
    One,
    Sub,
    Children,
}

/// Options of the search scenario.
#[derive(Debug, Clone)]
pub struct SearchArgs {
    pub common: CommonArgs,
    /// Base DN for the search.
    pub base_dn: String,
    /// Search scope.
    pub scope: SearchScope,
    /// Search filter template; `%` patterns take a random id.
    pub filter: String,
    /// Attributes to retrieve, comma-separated.
    pub attributes: String,
    /// First id for random filter generation.
    pub first: u32,
    /// Last id for random filter generation; zero for none.
    pub last: u32,
}

impl HasCommonArgs for SearchArgs {
    open spec fn spec_common(&self) -> CommonArgs {
        self.common
    }

    fn common(&self) -> (c: &CommonArgs) {
        &self.common
    }
}

impl SearchArgs {
    /// A field-for-field copy.
    pub fn duplicate(&self) -> (r: SearchArgs)
        ensures
            r.common.concurrency == self.common.concurrency,
            r.common.number == self.common.number,
            r.common.bind_dn@ == self.common.bind_dn@,
            r.common.bind_pw@ == self.common.bind_pw@,
            r.common.url@ == self.common.url@,
            r.base_dn@ == self.base_dn@,
            r.scope == self.scope,
            r.filter@ == self.filter@,
            r.attributes@ == self.attributes@,
            r.first == self.first,
            r.last == self.last,
    {
        SearchArgs {
            common: self.common.duplicate(),
            base_dn: self.base_dn.clone(),
            scope: self.scope,
            filter: self.filter.clone(),
            attributes: self.attributes.clone(),
            first: self.first,
            last: self.last,
        }
    }
}

/// Whether the filter template is subject to id substitution.
pub open spec fn spec_search_has_range(args: SearchArgs) -> bool {
    spec_contains_char(args.filter@, '%') && args.last > 0
}

/// Per-worker state of the search scenario.
pub struct SearchJob {
    pub base: BaseJob,
    pub args: SearchArgs,
    /// Number of candidate ids; zero when the filter is used verbatim.
    pub id_range: u32,
    /// The attributes to retrieve, split out of the configured list.
    pub attrs: Vec<String>,
}

impl SearchJob {
    pub open spec fn wf(self) -> bool {
        &&& self.base.wf()
        &&& (self.id_range > 0 ==> self.args.first <= self.args.last)
        &&& (self.id_range > 0 <==> spec_search_has_range(self.args))
    }

    /// A fresh worker: the id range follows the filter template, and the
    /// attribute list is split at commas, each entry trimmed.
    pub fn new(tid: usize, args: &SearchArgs) -> (r: SearchJob)
        requires
            spec_search_has_range(*args) ==> args.first <= args.last && args.last - args.first
                < u32::MAX,
        ensures
            r.wf(),
            r.base.tid == tid,
            r.base.count == 0,
            r.base.success == 0,
            r.args.filter@ == args.filter@,
            r.args.base_dn@ == args.base_dn@,
            r.args.scope == args.scope,
            r.args.attributes@ == args.attributes@,
            r.args.first == args.first,
            r.args.last == args.last,
            r.args.common.bind_dn@ == args.common.bind_dn@,
            r.args.common.bind_pw@ == args.common.bind_pw@,
            r.args.common.url@ == args.common.url@,
            r.args.common.concurrency == args.common.concurrency,
            r.args.common.number == args.common.number,
            r.id_range == if spec_search_has_range(*args) {
                args.last - args.first + 1
            } else {
                0int
            },
            r.attrs@.len() == spec_split(args.attributes@, ',').len(),
            forall|i: int|
                0 <= i < r.attrs@.len() ==> (#[trigger] r.attrs@[i])@ == spec_trim(
                    spec_split(args.attributes@, ',')[i],
                ),
    {
        let id_range: u32 = if contains_char(args.filter.as_str(), '%') && args.last > 0 {
            args.last - args.first + 1
        } else {
            0
        };
        let attrs = split_trimmed(args.attributes.as_str(), ',');
        SearchJob { base: BaseJob::new(tid), args: args.duplicate(), id_range, attrs }
    }

    /// The filter the next search uses: the configured filter verbatim,
    /// or the template with a random id from the configured range
    /// substituted in.
    pub fn generate_filter(&self) -> (r: String)
        requires
            self.wf(),
        ensures
            self.id_range == 0 ==> r@ == self.args.filter@,
            self.id_range > 0 ==> exists|id: u32|
                self.args.first <= id <= self.args.last && r@ == spec_subst_id(
                    self.args.filter@,
                    id as int,
                ),
    {
        if self.id_range > 0 {
            let id = crate::rng::random_in_range_u32(self.args.first, self.args.last);
            let r = subst_id(self.args.filter.as_str(), id);
            proof {
                assert(self.args.first <= id <= self.args.last && r@ == spec_subst_id(
                    self.args.filter@,
                    id as int,
                ));
            }
            r
        } else {
            self.args.filter.clone()
        }
    }
}

/// The search scenario's success signal: a search succeeded when it
/// returned at least one entry.
pub fn search_succeeded(entry_count: usize) -> (r: bool)
    ensures
        r == (entry_count > 0),
{
    entry_count > 0
}

} // verus!
