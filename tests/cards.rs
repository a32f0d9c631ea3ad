use daemon_core::cards::{contacts_from_vcf, split_fields, ContactInfo, SimContactInfo};
use daemon_core::time::SystemTime;

#[test]
fn split_on_separator() {
    assert_eq!(split_fields("a\u{1E}bc\u{1E}"), vec!["a", "bc", ""]);
    assert_eq!(split_fields(""), vec![""]);
    assert_eq!(split_fields("13682628272"), vec!["13682628272"]);
}

#[test]
fn sim_contact_conversion() {
    let sim = SimContactInfo {
        id: "0001".to_string(),
        tel: "13682628272\u{001E}18812345678\u{001E}19922223333".to_string(),
        email: "test@163.com\u{001E}happy@sina.com\u{001E}3179912@qq.com".to_string(),
        name: "Ted".to_string(),
    };
    let c = ContactInfo::from_sim(&sim, SystemTime::from_millis(42));
    assert_eq!(c.id, "0001");
    assert_eq!(c.name, "Ted");
    assert_eq!(c.family_name, "Ted");
    assert_eq!(c.given_name, "Ted");
    let tels: Vec<&str> = c.tel.as_ref().unwrap().iter().map(|t| t.value.as_str()).collect();
    assert_eq!(tels, vec!["13682628272", "18812345678", "19922223333"]);
    let emails: Vec<&str> = c.email.as_ref().unwrap().iter().map(|t| t.value.as_str()).collect();
    assert_eq!(emails, vec!["test@163.com", "happy@sina.com", "3179912@qq.com"]);
    assert_eq!(c.category, Some(vec!["SIM".to_string()]));
    assert_eq!(c.published.as_millis(), 42);
    assert_eq!(c.updated.as_millis(), 42);
}

#[test]
fn vcard_import() {
    let vcf = "BEGIN:VCARD\r\nVERSION:3.0\r\nFN:Bob\r\nTEL:0001\r\nTEL:0002\r\nEMAIL:bob@example.com\r\nTITLE:Chef\r\nEND:VCARD\r\nBEGIN:VCARD\r\nVERSION:3.0\r\nFN:Alice\r\nEND:VCARD\r\n";
    let contacts = contacts_from_vcf(vcf);
    assert_eq!(contacts.len(), 2);
    assert_eq!(contacts[0].name, "Bob");
    let tels: Vec<&str> = contacts[0].tel.as_ref().unwrap().iter().map(|t| t.value.as_str()).collect();
    assert_eq!(tels, vec!["0001", "0002"]);
    assert_eq!(contacts[0].email.as_ref().unwrap()[0].value, "bob@example.com");
    assert_eq!(contacts[0].job_title, Some(vec!["Chef".to_string()]));
    assert_eq!(contacts[1].name, "Alice");
    assert!(contacts[1].tel.is_none());
    assert!(contacts[1].email.is_none());
    assert!(contacts_from_vcf("").is_empty());
}

#[test]
fn vcard_properties_in_order() {
    let c = ContactInfo::from_vcard_properties(vec![
        ("FN".to_string(), Some("A".to_string())),
        ("NOTE".to_string(), Some("x".to_string())),
        ("FN".to_string(), None),
        ("TITLE".to_string(), None),
        ("EMAIL".to_string(), None),
    ]);
    assert_eq!(c.name, "");
    assert_eq!(c.job_title, Some(vec!["".to_string()]));
    assert!(c.email.is_none());
}

#[test]
fn additional_rows_in_store_order() {
    let mut c = ContactInfo::empty();
    c.nickname = Some(vec!["Bobby".to_string(), "B".to_string()]);
    c.org = Some(vec!["KaiOS".to_string()]);
    c.sex = "male".to_string();
    c.ringtone = "".to_string();
    c.ice_position = -12;
    c.groups = Some(vec!["g1".to_string()]);
    let rows = c.additional_data_rows();
    let expected: Vec<(String, String)> = vec![
        ("nickname", "Bobby"),
        ("nickname", "B"),
        ("org", "KaiOS"),
        ("sex", "male"),
        ("ice_position", "-12"),
        ("groups", "g1"),
    ]
    .into_iter()
    .map(|(a, b)| (a.to_string(), b.to_string()))
    .collect();
    assert_eq!(rows, expected);
    assert!(ContactInfo::empty().additional_data_rows().is_empty());
}

#[test]
fn additional_rows_read_back() {
    let c = ContactInfo::empty();
    let (c, taken) = c.apply_additional_row("nickname".to_string(), "Bobby".to_string());
    assert!(taken);
    let (c, taken) = c.apply_additional_row("nickname".to_string(), "B".to_string());
    assert!(taken);
    let (c, _) = c.apply_additional_row("ringtone".to_string(), "bell".to_string());
    let (c, _) = c.apply_additional_row("ice_position".to_string(), "+3".to_string());
    assert_eq!(c.ice_position, 3);
    let (c, _) = c.apply_additional_row("ice_position".to_string(), "x3".to_string());
    assert_eq!(c.ice_position, 0);
    let (c, taken) = c.apply_additional_row("url".to_string(), "[]".to_string());
    assert!(!taken);
    let (c, taken) = c.apply_additional_row("unknown".to_string(), "v".to_string());
    assert!(!taken);
    assert_eq!(c.nickname, Some(vec!["Bobby".to_string(), "B".to_string()]));
    assert_eq!(c.ringtone, "bell");
}

#[test]
fn ice_position_edges() {
    let mut c = ContactInfo::empty();
    c.ice_position = i64::MIN;
    let rows = c.additional_data_rows();
    assert_eq!(rows, vec![("ice_position".to_string(), "-9223372036854775808".to_string())]);
    let (c, _) = ContactInfo::empty().apply_additional_row("ice_position".to_string(), "-9223372036854775808".to_string());
    assert_eq!(c.ice_position, i64::MIN);
    let (c, _) = c.apply_additional_row("ice_position".to_string(), "9223372036854775808".to_string());
    assert_eq!(c.ice_position, 0);
    let (c, _) = c.apply_additional_row("ice_position".to_string(), "9223372036854775807".to_string());
    assert_eq!(c.ice_position, i64::MAX);
    let (c, _) = c.apply_additional_row("ice_position".to_string(), "-".to_string());
    assert_eq!(c.ice_position, 0);
    let (c, _) = c.apply_additional_row("ice_position".to_string(), "0042".to_string());
    assert_eq!(c.ice_position, 42);
    let (c, _) = c.apply_additional_row("ice_position".to_string(), " 1".to_string());
    assert_eq!(c.ice_position, 0);
}
