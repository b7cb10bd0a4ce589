use indexmap::IndexMap;
use url::Url;
use vrc_get::address::{is_url, UrlParts};
use vrc_get::gui::deep_link::{deep_link_request, desktop_entry, exec_escape, parse_deep_link, AddRepositoryInfo, DeepLink};

fn add_repository(link: &str) -> AddRepositoryInfo {
    match deep_link_request(link) {
        Some(DeepLink::AddRepository(info)) => info,
        None => panic!("no request in {link}"),
    }
}

#[test]
fn parse_add_repo() {
    let deep_link = add_repository("vcc://vpm/addRepo?url=https://example.com");
    assert_eq!(deep_link.url, Url::parse("https://example.com").unwrap().as_str());
    assert_eq!(deep_link.headers, IndexMap::<String, String>::new());

    let deep_link = add_repository("vcc://vpm/addRepo?url=https%3A%2F%2Fvpm.anatawa12.com%2Fvpm.json");
    assert_eq!(deep_link.url, Url::parse("https://vpm.anatawa12.com/vpm.json").unwrap().as_str());
    assert_eq!(deep_link.headers, IndexMap::<String, String>::new());

    let deep_link = add_repository(
        "vcc://vpm/addRepo?url=https%3A%2F%2Fvpm.anatawa12.com%2Fvpm.json&headers[]=Authorization:test",
    );
    assert_eq!(deep_link.url, Url::parse("https://vpm.anatawa12.com/vpm.json").unwrap().as_str());
    let mut map = IndexMap::new();
    map.insert("Authorization".to_string(), "test".to_string());
    assert_eq!(deep_link.headers, map);
}

#[test]
fn other_links_ask_nothing() {
    assert!(deep_link_request("vcc://vpm/removeRepo?url=https://example.com").is_none());
    assert!(deep_link_request("vcc://other/addRepo?url=https://example.com").is_none());
    assert!(deep_link_request("https://vpm/addRepo?url=https://example.com").is_none());
    assert!(deep_link_request("vcc://vpm/addRepo").is_none());
    assert!(deep_link_request("vcc://vpm/addRepo?url=ftp://example.com").is_none());
    assert!(deep_link_request("vcc://vpm/addRepo?url=https://a.example&url=https://b.example").is_none());
    assert!(deep_link_request("vcc://vpm/addRepo?url=https://a.example&headers[]=NoColon").is_none());
    assert!(deep_link_request("not a link").is_none());
}

#[test]
fn later_headers_replace_earlier_ones() {
    let info = add_repository(
        "vcc://vpm/addRepo?headers[]=A:1&other=x&url=https://a.example/r.json&headers[]=B:2:3&headers[]=A:4",
    );
    assert_eq!(info.url, "https://a.example/r.json");
    let pairs: Vec<(String, String)> = info.headers.into_iter().collect();
    assert_eq!(pairs, vec![("A".to_string(), "4".to_string()), ("B".to_string(), "2:3".to_string())]);
}

#[test]
fn links_are_read_from_their_parts() {
    let link = UrlParts {
        scheme: "vcc".to_string(),
        host: Some("vpm".to_string()),
        path: "/addRepo".to_string(),
        query: vec![("url".to_string(), "http://example.com/x".to_string())],
        text: String::new(),
    };
    match parse_deep_link(&link) {
        Some(DeepLink::AddRepository(info)) => assert_eq!(info.url, "http://example.com/x"),
        None => panic!("no request"),
    }
    assert!(is_url("https://example.com"));
    assert!(!is_url("relative/path"));
}

#[test]
fn addresses_are_written_back_normalized() {
    assert_eq!(vrc_get::address::normalized_url("HTTPS://Example.COM"), Some("https://example.com/".to_string()));
    assert_eq!(vrc_get::address::normalized_url("no address"), None);
}

#[test]
fn desktop_entry_quotes_the_path() {
    let path = "/opt/My \"App\"$`\\x.AppImage";
    let expected_escape = path
        .replace('\\', r#"\\\\"#)
        .replace('`', r#"\\`"#)
        .replace('$', r#"\\$"#)
        .replace('"', r#"\\""#);
    assert_eq!(exec_escape(path), expected_escape);
    assert_eq!(exec_escape("/plain/path"), "/plain/path");
    let entry = desktop_entry("/a/b.AppImage");
    assert_eq!(
        entry,
        "[Desktop Entry]\nType=Application\nName=ALCOM\nExec=\"/a/b.AppImage\" link %u\nNoDisplay=true\nTerminal=false\nMimeType=x-scheme-handler/vcc\nCategories=Utility;\n"
    );
}
