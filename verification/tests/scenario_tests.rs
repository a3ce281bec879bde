use ldapbench::add::{AddArgs, AddJob};
use ldapbench::bind::{BindArgs, BindJob};
use ldapbench::delete::{DeleteArgs, DeleteJob};
use ldapbench::lb::CommonArgs;
use ldapbench::modify::{ModifyArgs, ModifyJob};
use ldapbench::passmod::{PassmodArgs, PassmodJob};
use ldapbench::search::{search_succeeded, SearchArgs, SearchJob, SearchScope};
use ldapbench::setup::{base_entry_attrs, base_entry_dc, person_entry, person_entry_names, PersonArgs};
use ldapbench::strutil::{replace_all, split_trimmed, subst_id, trim_str, u64_to_dec};

fn common() -> CommonArgs {
    CommonArgs {
        concurrency: 2,
        number: 10,
        bind_dn: String::from("cn=Manager,dc=example,dc=com"),
        bind_pw: String::from("secret"),
        url: String::from("ldap://localhost:389"),
    }
}

#[test]
fn decimal_rendering() {
    assert_eq!(u64_to_dec(0), "0");
    assert_eq!(u64_to_dec(7), "7");
    assert_eq!(u64_to_dec(1234567890), "1234567890");
    assert_eq!(u64_to_dec(u64::MAX), "18446744073709551615");
}

#[test]
fn replace_all_scans_left_to_right() {
    assert_eq!(replace_all("a%d-b%d", "%d", "7"), "a7-b7");
    assert_eq!(replace_all("nothing here", "%d", "7"), "nothing here");
    assert_eq!(replace_all("aaa", "aa", "b"), "ba");
    assert_eq!(replace_all("x", "", "y"), "x");
}

#[test]
fn subst_id_handles_every_pattern() {
    assert_eq!(subst_id("user%d", 5), "user5");
    assert_eq!(subst_id("user%04d", 5), "user0005");
    assert_eq!(subst_id("user%03d", 5), "user005");
    assert_eq!(subst_id("user%02d", 5), "user05");
    assert_eq!(subst_id("u%d-%02d-%03d-%04d", 12), "u12-12-012-0012");
    assert_eq!(subst_id("user%04d", 123456), "user123456");
    assert_eq!(subst_id("plain", 5), "plain");
}

#[test]
fn trim_and_split() {
    assert_eq!(trim_str("  a b  "), "a b");
    assert_eq!(trim_str("\t x\r\n"), "x");
    assert_eq!(trim_str(""), "");
    let parts = split_trimmed("dn, cn ,sn", ',');
    assert_eq!(parts, vec!["dn", "cn", "sn"]);
    let parts = split_trimmed("one", ',');
    assert_eq!(parts, vec!["one"]);
    let parts = split_trimmed("a,", ',');
    assert_eq!(parts, vec!["a", ""]);
}

#[test]
fn bind_without_range_uses_dn_verbatim() {
    let args = BindArgs { common: common(), first: 1, last: 0 };
    let job = BindJob::new(0, &args);
    assert_eq!(job.id_range, 0);
    assert_eq!(job.generate_dn(), "cn=Manager,dc=example,dc=com");
}

#[test]
fn bind_with_range_substitutes_an_id() {
    let mut c = common();
    c.bind_dn = String::from("cn=user%04d,dc=example,dc=com");
    let args = BindArgs { common: c, first: 7, last: 7 };
    let job = BindJob::new(0, &args);
    assert_eq!(job.id_range, 1);
    // the range holds one id, so the draw is fixed
    assert_eq!(job.generate_dn(), "cn=user0007,dc=example,dc=com");
    let mut c2 = common();
    c2.bind_dn = String::from("cn=user%d,dc=example,dc=com");
    let args = BindArgs { common: c2, first: 1, last: 4 };
    let job = BindJob::new(0, &args);
    assert_eq!(job.id_range, 4);
    let dn = job.generate_dn();
    let expected: Vec<String> =
        (1..=4).map(|i| format!("cn=user{},dc=example,dc=com", i)).collect();
    assert!(expected.contains(&dn), "unexpected dn {}", dn);
}

#[test]
fn search_job_splits_attributes_and_substitutes_filter() {
    let args = SearchArgs {
        common: common(),
        base_dn: String::from("dc=example,dc=com"),
        scope: SearchScope::Sub,
        filter: String::from("(cn=user%d)"),
        attributes: String::from("dn, cn ,sn"),
        first: 3,
        last: 3,
    };
    let job = SearchJob::new(1, &args);
    assert_eq!(job.attrs, vec!["dn", "cn", "sn"]);
    assert_eq!(job.id_range, 1);
    assert_eq!(job.generate_filter(), "(cn=user3)");
    assert!(search_succeeded(1));
    assert!(!search_succeeded(0));
}

#[test]
fn search_without_range_keeps_filter() {
    let args = SearchArgs {
        common: common(),
        base_dn: String::from("dc=example,dc=com"),
        scope: SearchScope::Base,
        filter: String::from("(objectClass=*)"),
        attributes: String::from("dn"),
        first: 1,
        last: 0,
    };
    let job = SearchJob::new(0, &args);
    assert_eq!(job.id_range, 0);
    assert_eq!(job.generate_filter(), "(objectClass=*)");
}

#[test]
fn add_plan_numbers_entries_by_worker_position() {
    let args = AddArgs { common: common(), uuid: false, base_dn: String::from("dc=example,dc=com") };
    let mut job = AddJob::new(3, &args);
    job.base.start_index = 100;
    job.base.count = 2;
    let plan = job.request_plan();
    assert_eq!(plan.cn, "102");
    assert_eq!(plan.dn, "cn=102,dc=example,dc=com");
    assert_eq!(plan.attrs.len(), 4);
    assert_eq!(plan.attrs[0].0, "objectClass");
    assert_eq!(plan.attrs[0].1, vec!["person"]);
    assert_eq!(plan.attrs[1].0, "cn");
    assert_eq!(plan.attrs[1].1, vec!["102"]);
    assert_eq!(plan.attrs[2].0, "sn");
    assert_eq!(plan.attrs[2].1, vec!["3"]);
    assert_eq!(plan.attrs[3].0, "userPassword");
    assert_eq!(plan.attrs[3].1, vec!["secret"]);
}

#[test]
fn add_plan_with_random_identifier() {
    let args = AddArgs { common: common(), uuid: true, base_dn: String::from("dc=example,dc=com") };
    let job = AddJob::new(0, &args);
    let plan = job.request_plan();
    assert_eq!(plan.cn.chars().count(), 36);
    assert_eq!(plan.dn, format!("cn={},dc=example,dc=com", plan.cn));
    let other = job.request_plan();
    assert_ne!(plan.cn, other.cn, "two draws should differ");
}

#[test]
fn modify_plan_targets_numbered_entry() {
    let args = ModifyArgs {
        common: common(),
        attr: String::from("sn"),
        value: String::from("modified"),
        base_dn: String::from("dc=example,dc=com"),
    };
    let mut job = ModifyJob::new(0, &args);
    job.base.count = 5;
    let plan = job.request_plan();
    assert_eq!(plan.dn, "cn=5,dc=example,dc=com");
    assert_eq!(plan.attr, "sn");
    assert_eq!(plan.value, "modified");
}

#[test]
fn delete_plan_targets_numbered_entry() {
    let args = DeleteArgs { common: common(), base_dn: String::from("dc=example,dc=com") };
    let mut job = DeleteJob::new(0, &args);
    job.base.start_index = 10;
    assert_eq!(job.request_dn(), "cn=10,dc=example,dc=com");
}

#[test]
fn passmod_plan_defaults_to_bind_password() {
    let args = PassmodArgs {
        common: common(),
        new_password: String::from("newsecret"),
        old_password: None,
        base_dn: String::from("dc=example,dc=com"),
    };
    let job = PassmodJob::new(0, &args);
    let plan = job.request_plan();
    assert_eq!(plan.user_dn, "cn=0,dc=example,dc=com");
    assert_eq!(plan.old_pass, "secret");
    assert_eq!(plan.new_pass, "newsecret");
    let args2 = PassmodArgs { old_password: Some(String::from("old")), ..args };
    let plan2 = PassmodJob::new(0, &args2).request_plan();
    assert_eq!(plan2.old_pass, "old");
}

#[test]
fn base_entry_extracts_dc_value() {
    assert_eq!(base_entry_dc("dc=example,dc=com"), "example");
    assert_eq!(base_entry_dc("dc=acme"), "acme");
    assert_eq!(base_entry_dc("o=something,dc=com"), "example");
    let attrs = base_entry_attrs("dc=widgets,dc=org");
    assert_eq!(attrs.len(), 3);
    assert_eq!(attrs[0].0, "objectClass");
    assert_eq!(attrs[0].1, vec!["dcObject", "organization"]);
    assert_eq!(attrs[1].0, "o");
    assert_eq!(attrs[1].1, vec!["lb"]);
    assert_eq!(attrs[2].0, "dc");
    assert_eq!(attrs[2].1, vec!["widgets"]);
}

fn person_args() -> PersonArgs {
    PersonArgs {
        base_dn: String::from("dc=example,dc=com"),
        cn: String::from("user"),
        sn: None,
        password: String::from("secret"),
        first: 1,
        last: 0,
    }
}

#[test]
fn person_names_cover_the_range() {
    let mut p = person_args();
    p.last = 3;
    assert_eq!(person_entry_names(&p), vec!["user1", "user2", "user3"]);
    p.cn = String::from("user%03d");
    assert_eq!(person_entry_names(&p), vec!["user001", "user002", "user003"]);
    p.last = 0;
    assert_eq!(person_entry_names(&p), vec!["user%03d"]);
}

#[test]
fn person_entry_defaults_surname_to_cn() {
    let p = person_args();
    let (dn, attrs) = person_entry("user7", &p);
    assert_eq!(dn, "cn=user7,dc=example,dc=com");
    assert_eq!(attrs[1].1, vec!["user7"]);
    assert_eq!(attrs[2].1, vec!["user7"]);
    assert_eq!(attrs[3].1, vec!["secret"]);
    let mut p2 = person_args();
    p2.sn = Some(String::from("Smith"));
    let (_, attrs2) = person_entry("user7", &p2);
    assert_eq!(attrs2[2].1, vec!["Smith"]);
}
