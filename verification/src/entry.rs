//! Directory entry naming and attribute lists shared by the scenarios:
//! `cn=<name>,<base>` distinguished names and the person entry template.

use vstd::prelude::*;
use crate::strutil::{spec_dec_digits, append_dec_u64};

verus! {

/// The distinguished name `cn=<cn>,<base_dn>`.
pub open spec fn spec_cn_dn(cn: Seq<char>, base_dn: Seq<char>) -> Seq<char> {
    seq!['c', 'n', '='] + cn + seq![','] + base_dn
}

pub fn cn_dn(cn: &str, base_dn: &str) -> (r: String)
    ensures
        r@ == spec_cn_dn(cn@, base_dn@),
{
    proof {
        reveal_strlit("cn=");
        reveal_strlit(",");
    }
    let mut s = String::new();
    s.append("cn=");
    s.append(cn);
    s.append(",");
    s.append(base_dn);
    proof {
        assert(Seq::<char>::empty() + "cn="@ + cn@ + ","@ + base_dn@ =~= spec_cn_dn(
            cn@,
            base_dn@,
        ));
    }
    s
}

/// The distinguished name of the entry numbered `n`.
pub fn numbered_dn(n: u64, base_dn: &str) -> (r: String)
    ensures
        r@ == spec_cn_dn(spec_dec_digits(n as int), base_dn@),
{
    let mut cn = String::new();
    append_dec_u64(&mut cn, n);
    proof {
        assert(Seq::<char>::empty() + spec_dec_digits(n as int) =~= spec_dec_digits(n as int));
    }
    cn_dn(cn.as_str(), base_dn)
}

/// The attribute list of a person entry: object class `person`, the
/// given common name, surname, and password.
pub fn person_attrs(cn: &str, sn: &str, password: &str) -> (r: Vec<(String, Vec<String>)>)
    ensures
        r@.len() == 4,
        r@[0].0@ == "objectClass"@ && r@[0].1@.len() == 1 && r@[0].1@[0]@ == "person"@,
        r@[1].0@ == "cn"@ && r@[1].1@.len() == 1 && r@[1].1@[0]@ == cn@,
        r@[2].0@ == "sn"@ && r@[2].1@.len() == 1 && r@[2].1@[0]@ == sn@,
        r@[3].0@ == "userPassword"@ && r@[3].1@.len() == 1 && r@[3].1@[0]@ == password@,
{
    let mut attrs: Vec<(String, Vec<String>)> = Vec::new();
    let mut oc_vals: Vec<String> = Vec::new();
    oc_vals.push(String::from_str("person"));
    attrs.push((String::from_str("objectClass"), oc_vals));
    let mut cn_vals: Vec<String> = Vec::new();
    cn_vals.push(String::from_str(cn));
    attrs.push((String::from_str("cn"), cn_vals));
    let mut sn_vals: Vec<String> = Vec::new();
    sn_vals.push(String::from_str(sn));
    attrs.push((String::from_str("sn"), sn_vals));
    let mut pw_vals: Vec<String> = Vec::new();
    pw_vals.push(String::from_str(password));
    attrs.push((String::from_str("userPassword"), pw_vals));
    attrs
}

} // verus!
