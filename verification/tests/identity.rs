use smb_heat_spike::identity::{classify, PrincipalClass};

#[test]
fn humans() {
    assert_eq!(classify("CONTOSO\\alice"), PrincipalClass::Human);
    assert_eq!(classify("bob"), PrincipalClass::Human);
}

#[test]
fn machines() {
    assert_eq!(classify("CONTOSO\\SGIFS01$"), PrincipalClass::Machine);
    assert_eq!(classify("WORKSTATION12$"), PrincipalClass::Machine);
    assert!(classify("CONTOSO\\SGIFS01$").is_automation());
}

#[test]
fn system_and_service() {
    assert_eq!(classify("NT AUTHORITY\\SYSTEM"), PrincipalClass::System);
    assert_eq!(classify("LOCAL SERVICE"), PrincipalClass::Service);
    assert_eq!(classify("S-1-5-18"), PrincipalClass::System);
    assert_eq!(classify("S-1-5-20"), PrincipalClass::Service);
}

#[test]
fn unknown_is_not_automation() {
    assert_eq!(classify(""), PrincipalClass::Unknown);
    assert!(!classify("").is_automation());
}

#[test]
fn well_knowns_fold_case_and_lose_their_domain() {
    assert_eq!(classify("nt authority\\Anonymous Logon"), PrincipalClass::System);
    assert_eq!(classify("a\\b\\network service"), PrincipalClass::Service);
    assert_eq!(classify("S-1-5-19"), PrincipalClass::Service);
    assert_eq!(classify("S-1-5-7"), PrincipalClass::System);
    assert_eq!(classify("<unknown>"), PrincipalClass::Unknown);
    // Nothing after the last separator is a name too.
    assert_eq!(classify("CONTOSO\\"), PrincipalClass::Human);
    assert_eq!(classify("HOST$\\x"), PrincipalClass::Human);
    assert!(!PrincipalClass::Human.is_automation());
    assert!(PrincipalClass::Service.is_automation());
    assert!(PrincipalClass::System.is_automation());
}
