use slotflow::Config;

#[test]
fn default_config_has_the_stock_secret_and_salt() {
    let c = Config::default();
    assert_eq!(c.secret, "mysecret");
    assert_eq!(c.salt, "YmFzZXNhbHQ");
    let d = c.clone();
    assert_eq!(d.secret, c.secret);
    assert_eq!(d.salt, c.salt);
}
