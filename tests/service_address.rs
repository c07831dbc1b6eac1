use xolotl::ServiceAddress;

#[test]
fn test_from_string() {
    let address = ServiceAddress::from_string("http://localhost:8080".to_string());
    assert!(matches!(address, ServiceAddress::String(_)));
    assert_eq!(address.as_str(), "http://localhost:8080");
}

#[test]
fn test_as_str() {
    let address = ServiceAddress::String("https://api.example.com:443".to_string());
    assert_eq!(address.as_str(), "https://api.example.com:443");
}

#[test]
fn test_extract_port_with_protocol() {
    let address = ServiceAddress::String("http://localhost:8080".to_string());
    assert_eq!(address.extract_port(), Some(8080));

    let address = ServiceAddress::String("https://api.example.com:443".to_string());
    assert_eq!(address.extract_port(), Some(443));

    let address = ServiceAddress::String("http://localhost:8080/api/v1".to_string());
    assert_eq!(address.extract_port(), Some(8080));
}

#[test]
fn test_extract_port_without_protocol() {
    let address = ServiceAddress::String("localhost:8080".to_string());
    assert_eq!(address.extract_port(), Some(8080));

    let address = ServiceAddress::String("127.0.0.1:9090".to_string());
    assert_eq!(address.extract_port(), Some(9090));
}

#[test]
fn test_extract_port_none() {
    let address = ServiceAddress::String("localhost".to_string());
    assert_eq!(address.extract_port(), None);

    let address = ServiceAddress::String("http://localhost".to_string());
    assert_eq!(address.extract_port(), None);
}

#[test]
fn test_is_secure() {
    let secure_addresses = vec![
        "https://api.example.com",
        "wss://websocket.example.com",
        "ftps://ftp.example.com",
        "sftp://sftp.example.com",
        "ssh://ssh.example.com",
    ];

    let insecure_addresses = vec![
        "http://api.example.com",
        "ws://websocket.example.com",
        "ftp://ftp.example.com",
        "example.com",
        "localhost:8080",
    ];

    for addr in secure_addresses {
        let service_addr = ServiceAddress::String(addr.to_string());
        assert!(
            service_addr.is_secure(),
            "Address {} should be secure",
            addr
        );
    }

    for addr in insecure_addresses {
        let service_addr = ServiceAddress::String(addr.to_string());
        assert!(
            !service_addr.is_secure(),
            "Address {} should not be secure",
            addr
        );
    }
}

fn port(s: &str) -> Option<u16> {
    ServiceAddress::from_string(s.to_string()).extract_port()
}

#[test]
fn port_is_read_after_the_last_colon_of_the_host() {
    assert_eq!(port("host:80:90"), Some(90));
    assert_eq!(port("http://user:pw@host:7000/x:1"), Some(7000));
}

#[test]
fn port_stops_at_the_first_slash() {
    assert_eq!(port("http://host/a:80"), None);
    assert_eq!(port("host:8080/path"), Some(8080));
}

#[test]
fn port_bounds_and_garbage() {
    assert_eq!(port("host:0"), Some(0));
    assert_eq!(port("host:65535"), Some(65535));
    assert_eq!(port("host:65536"), None);
    assert_eq!(port("host:999999999999"), None);
    assert_eq!(port("host:"), None);
    assert_eq!(port("host:+81"), Some(81));
    assert_eq!(port("host:+"), None);
    assert_eq!(port("host:8a"), None);
    assert_eq!(port("host:-1"), None);
    assert_eq!(port(""), None);
    assert_eq!(port("http://"), None);
}

#[test]
fn secure_needs_the_whole_prefix() {
    assert!(!ServiceAddress::from_string("https:/x".to_string()).is_secure());
    assert!(!ServiceAddress::from_string("".to_string()).is_secure());
    assert!(!ServiceAddress::from_string("HTTPS://x".to_string()).is_secure());
    assert!(ServiceAddress::from_string("ssh://".to_string()).is_secure());
}

#[test]
fn address_text_is_kept_as_given() {
    let a = ServiceAddress::from_string("  not a url \u{e9} ".to_string());
    assert_eq!(a.as_str(), "  not a url \u{e9} ");
}
