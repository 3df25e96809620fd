use vrit::config::Config;

#[test]
fn parses_settings() {
    let c = Config::from_text("# comment\n user.name = Ada Lovelace \n\nuser.email=ada@example.com\nnonsense\n");
    assert_eq!(c.get("user.name"), Some("Ada Lovelace"));
    assert_eq!(c.get("user.email"), Some("ada@example.com"));
    assert_eq!(c.get("nonsense"), None);
    assert_eq!(c.get("missing"), None);
}

#[test]
fn later_setting_wins() {
    let c = Config::from_text("k = 1\nk = 2\nx = a = b\n");
    assert_eq!(c.get("k"), Some("2"));
    assert_eq!(c.get("x"), Some("a = b"));
}

#[test]
fn require_reports_missing_key() {
    let c = Config::from_text("user.name = A\n");
    assert_eq!(c.require("user.name"), Ok("A"));
    assert_eq!(
        c.require("user.email"),
        Err("user.email is not set in .vrit/config — please add it before committing".to_string())
    );
}
