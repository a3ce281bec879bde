//! Setup utilities: what the one-shot seeding commands send — the base
//! entry derived from the base DN, and the person entries named from a
//! template or a numeric range.  Sending them is the caller's part.

use vstd::prelude::*;
use crate::lb::CommonArgs;
use crate::strutil::{
    spec_contains_char, spec_dec_digits, spec_find_sep, spec_subst_id, contains_char, subst_id,
    u64_to_dec, lemma_find_sep_at,
};
use crate::entry::{spec_cn_dn, cn_dn, person_attrs};

verus! {

/// Options of the base-entry setup command.
#[derive(Debug, Clone)]
pub struct SetupBaseArgs {
    pub common: CommonArgs,
    /// Quiet mode.
    pub quiet: bool,
    pub base: BaseArgs,
}

/// Options of the person-entries setup command.
#[derive(Debug, Clone)]
pub struct SetupPersonArgs {
    pub common: CommonArgs,
    /// Quiet mode.
    pub quiet: bool,
    pub person: PersonArgs,
}

/// The base entry's location.
#[derive(Debug, Clone)]
pub struct BaseArgs {
    /// Base DN.
    pub base_dn: String,
}

/// How the person entries are named and filled.
#[derive(Debug, Clone)]
pub struct PersonArgs {
    /// Base DN for the entries.
    pub base_dn: String,
    /// Common-name prefix or template.
    pub cn: String,
    /// Surname; the common name when absent.
    pub sn: Option<String>,
    /// Password attribute value.
    pub password: String,
    /// First id number.
    pub first: u32,
    /// Last id number; zero for a single entry without a suffix.
    pub last: u32,
}

/// The `dc` value of the base entry: the first comma-separated piece of
/// the base DN without its `dc=` prefix, or `example` when the piece
/// does not start with `dc=`.
pub open spec fn spec_base_dc(s: Seq<char>) -> Seq<char> {
    let f = spec_find_sep(s, ',');
    let piece = if f < 0 {
        s
    } else {
        s.subrange(0, f)
    };
    if piece.len() >= 3 && piece.subrange(0, 3) == seq!['d', 'c', '='] {
        piece.skip(3)
    } else {
        seq!['e', 'x', 'a', 'm', 'p', 'l', 'e']
    }
}

pub fn base_entry_dc(base_dn: &str) -> (r: String)
    ensures
        r@ == spec_base_dc(base_dn@),
{
    let n = base_dn.unicode_len();
    let mut e: usize = 0;
    while e < n && base_dn.get_char(e) != ','
        invariant
            e <= n,
            n == base_dn@.len(),
            forall|k: int| 0 <= k < e ==> base_dn@[k] != ',',
        decreases n - e,
    {
        e = e + 1;
    }
    proof {
        if e < n {
            assert(base_dn@[e as int] == ',');
        }
        lemma_find_sep_at(base_dn@, ',', e as int);
    }
    let ghost piece = if e < n {
        base_dn@.subrange(0, e as int)
    } else {
        base_dn@
    };
    proof {
        if e == n {
            assert(base_dn@.subrange(0, e as int) =~= base_dn@);
        }
    }
    let has_prefix: bool = if e >= 3 {
        let c0 = base_dn.get_char(0);
        let c1 = base_dn.get_char(1);
        let c2 = base_dn.get_char(2);
        c0 == 'd' && c1 == 'c' && c2 == '='
    } else {
        false
    };
    proof {
        assert(piece =~= base_dn@.subrange(0, e as int));
        if e >= 3 {
            assert(piece.subrange(0, 3)[0] == base_dn@[0]);
            assert(piece.subrange(0, 3)[1] == base_dn@[1]);
            assert(piece.subrange(0, 3)[2] == base_dn@[2]);
            if has_prefix {
                assert(piece.subrange(0, 3) =~= seq!['d', 'c', '=']);
            } else {
                assert(piece.subrange(0, 3) != seq!['d', 'c', '=']);
            }
        }
    }
    if has_prefix {
        let out_src = base_dn.substring_char(3, e);
        let mut out = String::new();
        out.append(out_src);
        proof {
            assert(Seq::<char>::empty() + out_src@ =~= out_src@);
            assert(out_src@ =~= piece.skip(3));
        }
        out
    } else {
        proof {
            reveal_strlit("example");
        }
        let mut out = String::new();
        out.append("example");
        proof {
            assert(Seq::<char>::empty() + "example"@ =~= "example"@);
            assert("example"@ =~= seq!['e', 'x', 'a', 'm', 'p', 'l', 'e']);
        }
        out
    }
}

/// The attribute list of the base entry: object classes `dcObject` and
/// `organization`, organization name `lb`, and the `dc` value derived
/// from the base DN.
pub fn base_entry_attrs(base_dn: &str) -> (r: Vec<(String, Vec<String>)>)
    ensures
        r@.len() == 3,
        r@[0].0@ == "objectClass"@ && r@[0].1@.len() == 2 && r@[0].1@[0]@ == "dcObject"@
            && r@[0].1@[1]@ == "organization"@,
        r@[1].0@ == "o"@ && r@[1].1@.len() == 1 && r@[1].1@[0]@ == "lb"@,
        r@[2].0@ == "dc"@ && r@[2].1@.len() == 1 && r@[2].1@[0]@ == spec_base_dc(base_dn@),
{
    let dc_value = base_entry_dc(base_dn);
    let mut attrs: Vec<(String, Vec<String>)> = Vec::new();
    let mut oc_vals: Vec<String> = Vec::new();
    oc_vals.push(String::from_str("dcObject"));
    oc_vals.push(String::from_str("organization"));
    attrs.push((String::from_str("objectClass"), oc_vals));
    let mut o_vals: Vec<String> = Vec::new();
    o_vals.push(String::from_str("lb"));
    attrs.push((String::from_str("o"), o_vals));
    let mut dc_vals: Vec<String> = Vec::new();
    dc_vals.push(dc_value);
    attrs.push((String::from_str("dc"), dc_vals));
    attrs
}

/// The common name of the person entry numbered `i`: the template with
/// the id substituted when it holds a `%` pattern, else the prefix with
/// the decimal id appended.
pub open spec fn spec_person_name(cn: Seq<char>, i: int) -> Seq<char> {
    if spec_contains_char(cn, '%') {
        spec_subst_id(cn, i)
    } else {
        cn + spec_dec_digits(i)
    }
}

fn person_name(cn: &str, i: u32) -> (r: String)
    ensures
        r@ == spec_person_name(cn@, i as int),
{
    if contains_char(cn, '%') {
        subst_id(cn, i)
    } else {
        let digits = u64_to_dec(i as u64);
        let mut out = String::new();
        out.append(cn);
        out.append(digits.as_str());
        proof {
            assert(Seq::<char>::empty() + cn@ + digits@ =~= cn@ + spec_dec_digits(i as int));
        }
        out
    }
}

/// The common names of every person entry the setup creates: one name
/// per id in the configured range, or the bare prefix alone when no
/// range was given.  An empty range yields no names.
pub fn person_entry_names(person: &PersonArgs) -> (r: Vec<String>)
    ensures
        person.last == 0 ==> r@.len() == 1 && r@[0]@ == person.cn@,
        person.last > 0 && person.first > person.last ==> r@.len() == 0,
        person.last > 0 && person.first <= person.last ==> r@.len() == person.last - person.first
            + 1 && forall|k: int|
            0 <= k < r@.len() ==> (#[trigger] r@[k])@ == spec_person_name(
                person.cn@,
                person.first + k,
            ),
{
    let mut out: Vec<String> = Vec::new();
    if person.last == 0 {
        out.push(person.cn.clone());
        return out;
    }
    if person.first > person.last {
        return out;
    }
    let mut i: u64 = person.first as u64;
    while i <= person.last as u64
        invariant
            person.first <= i <= person.last as u64 + 1,
            out@.len() == i - person.first,
            forall|k: int|
                0 <= k < out@.len() ==> (#[trigger] out@[k])@ == spec_person_name(
                    person.cn@,
                    person.first + k,
                ),
        decreases person.last as u64 + 1 - i,
    {
        let name = person_name(person.cn.as_str(), i as u32);
        out.push(name);
        i = i + 1;
    }
    out
}

/// One person entry: its distinguished name under the base DN, and its
/// attributes with the configured surname (the common name when none
/// was configured) and password.
pub fn person_entry(cn: &str, person: &PersonArgs) -> (r: (String, Vec<(String, Vec<String>)>))
    ensures
        r.0@ == spec_cn_dn(cn@, person.base_dn@),
        r.1@.len() == 4,
        r.1@[0].0@ == "objectClass"@ && r.1@[0].1@.len() == 1 && r.1@[0].1@[0]@ == "person"@,
        r.1@[1].0@ == "cn"@ && r.1@[1].1@.len() == 1 && r.1@[1].1@[0]@ == cn@,
        r.1@[2].0@ == "sn"@ && r.1@[2].1@.len() == 1 && r.1@[2].1@[0]@ == (if person.sn is Some {
            person.sn->0@
        } else {
            cn@
        }),
        r.1@[3].0@ == "userPassword"@ && r.1@[3].1@.len() == 1 && r.1@[3].1@[0]@
            == person.password@,
{
    let dn = cn_dn(cn, person.base_dn.as_str());
    let attrs = match &person.sn {
        Some(sn) => person_attrs(cn, sn.as_str(), person.password.as_str()),
        None => person_attrs(cn, cn, person.password.as_str()),
    };
    (dn, attrs)
}

} // verus!
