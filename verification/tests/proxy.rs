use castavox_core::proxy::{https_proxy, registry_value, variables, windows_proxy};

fn settings(values: &[Option<&str>]) -> Vec<Option<String>> {
    values.iter().map(|v| v.map(String::from)).collect()
}

#[test]
fn the_variables_are_believed_in_their_order() {
    assert_eq!(variables(), ["HTTPS_PROXY", "https_proxy", "ALL_PROXY", "all_proxy"]);
    assert_eq!(
        https_proxy(&settings(&[None, Some("http://b:1"), Some("http://c:1"), None]), None)
            .as_deref(),
        Some("http://b:1")
    );
}

#[test]
fn the_environment_decides_and_blank_means_none() {
    assert_eq!(
        https_proxy(&settings(&[Some("http://chosen.example:3128"), None, None, None]), None)
            .as_deref(),
        Some("http://chosen.example:3128"),
        "an explicit setting is believed"
    );
    assert_eq!(
        https_proxy(&settings(&[Some("   "), None, None, None]), None),
        None,
        "blank is not a proxy"
    );
    assert_eq!(https_proxy(&settings(&[None, None, None, None]), None), None);
}

#[test]
fn an_explicit_setting_beats_what_the_system_says() {
    let system = || Some("http://system:80".to_string());
    assert_eq!(
        https_proxy(&settings(&[None, Some(" "), Some(" http://all:1 ")]), system()).as_deref(),
        Some("http://all:1")
    );
    assert_eq!(https_proxy(&settings(&[None]), system()), system());
}

const ON: &str = "\r\nHKEY_CURRENT_USER\\Software\r\n    ProxyEnable    REG_DWORD    0x1\r\n";

fn server(value: &str) -> String {
    format!("\r\n    ProxyServer    REG_SZ    {value}\r\n")
}

#[test]
fn the_registry_is_read_as_it_is_printed() {
    assert_eq!(registry_value(ON, "ProxyEnable").as_deref(), Some("0x1"));
    assert_eq!(registry_value(ON, "ProxyServer"), None);
}

#[test]
fn a_proxy_that_is_switched_off_is_no_proxy() {
    let off = "    ProxyEnable    REG_DWORD    0x0";
    assert_eq!(windows_proxy(Some(off), Some(&server("proxy:80"))), None);
    assert_eq!(windows_proxy(None, Some(&server("proxy:80"))), None);
    assert_eq!(windows_proxy(Some(ON), None), None);
}

#[test]
fn the_https_entry_wins() {
    let chosen = |value: &str| windows_proxy(Some(ON), Some(&server(value)));
    assert_eq!(chosen("proxy:8080").as_deref(), Some("http://proxy:8080"));
    assert_eq!(chosen("http=a:80;https=b:443").as_deref(), Some("http://b:443"));
    assert_eq!(chosen("ftp=c:21;http=a:80").as_deref(), Some("http://a:80"));
    assert_eq!(chosen("https=socks5://d:1").as_deref(), Some("socks5://d:1"));
    assert_eq!(chosen("https=;http=a:80"), None);
}
