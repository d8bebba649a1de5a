use base64::engine::general_purpose::STANDARD as BASE64;
use base64::Engine;
use rr::cloud_api::{
    classify_status, deletion_target, delete_body, encode_meta, find_folder, join_url, list_reply,
    resolve_base_url, retry_after_secs, upload_reply, FileItem, ListNext, PathWalk,
    DEFAULT_BASE_URL,
};
use rr::error::{Error, NetworkFault};

#[test]
fn tectonic_resolution() {
    assert_eq!(
        resolve_base_url(Some("eu")),
        "https://web.eu.tectonic.remarkable.com"
    );
    assert_eq!(
        resolve_base_url(Some("us")),
        "https://web.us.tectonic.remarkable.com"
    );
    assert_eq!(resolve_base_url(None), DEFAULT_BASE_URL);
    assert_eq!(resolve_base_url(Some("")), DEFAULT_BASE_URL);
    assert_eq!(resolve_base_url(Some("  ")), DEFAULT_BASE_URL);
}

#[test]
fn classify_status_maps_401_to_unauthorized() {
    let e = classify_status(401, None, "nope".into());
    let Error::Unauthorized { body } = e else {
        panic!("a 401 must map to Unauthorized, never AuthExpired");
    };
    assert_eq!(body, "nope");
}

#[test]
fn classify_status_keeps_429_retry_after() {
    let e = classify_status(429, Some(7), String::new());
    let Error::RateLimited { retry_after_secs } = e else {
        panic!("a 429 must map to RateLimited");
    };
    assert_eq!(retry_after_secs, 7);
}

#[test]
fn classify_status_defaults_the_delay_and_keeps_other_statuses() {
    assert!(matches!(
        classify_status(429, None, String::new()),
        Error::RateLimited { retry_after_secs: 1 }
    ));
    assert!(matches!(
        classify_status(500, Some(7), String::new()),
        Error::Api { status: 500, .. }
    ));
    assert_eq!(retry_after_secs("120"), Some(120));
    assert_eq!(retry_after_secs("soon"), None);
}

#[test]
fn meta_round_trip_base64() {
    let m = encode_meta("Hello.epub", Some("p1"), Some("portrait"), Some(true));
    let bytes = BASE64.decode(&m).unwrap();
    let v: serde_json::Value = serde_json::from_slice(&bytes).unwrap();
    assert_eq!(v["file_name"], "Hello.epub");
    assert_eq!(v["parent"], "p1");
    assert_eq!(v["orientation"], "portrait");
    assert_eq!(v["convert"], true);
}

#[test]
fn meta_omits_none_fields() {
    let m = encode_meta("Hello.epub", None, None, None);
    let bytes = BASE64.decode(&m).unwrap();
    let v: serde_json::Value = serde_json::from_slice(&bytes).unwrap();
    assert_eq!(v["file_name"], "Hello.epub");
    assert!(v.get("parent").is_none() || v["parent"].is_null());
    assert!(v.get("orientation").is_none() || v["orientation"].is_null());
    assert!(v.get("convert").is_none() || v["convert"].is_null());
    assert_eq!(bytes, b"{\"file_name\":\"Hello.epub\"}");
}

#[test]
fn meta_of_every_length_decodes() {
    for n in 0..7 {
        let name = "x".repeat(n);
        let bytes = BASE64.decode(encode_meta(&name, None, None, Some(false))).unwrap();
        assert_eq!(
            String::from_utf8(bytes).unwrap(),
            format!("{{\"file_name\":\"{name}\",\"convert\":false}}")
        );
    }
}

#[test]
fn urls_join_with_one_slash() {
    assert_eq!(join_url("https://h/", "/doc/v2/files"), "https://h/doc/v2/files");
    assert_eq!(join_url("https://h//", "doc"), "https://h/doc");
    assert_eq!(join_url("https://h", "/a"), "https://h/a");
    assert_eq!(join_url("", "a"), "/a");
}

fn named(id: &str, name: &str, parent: Option<&str>) -> FileItem {
    FileItem {
        id: id.to_string(),
        hash: format!("h-{id}"),
        file_name: name.to_string(),
        parent: parent.map(str::to_owned),
        ..FileItem::default()
    }
}

#[test]
fn folders_are_found_by_name_and_parent() {
    let files = vec![
        named("1", "Work", Some("p")),
        named("2", "Work", None),
        named("3", "Work", Some("q")),
    ];
    assert_eq!(find_folder(&files, "Work", None).unwrap().id, "1");
    assert_eq!(find_folder(&files, "Work", Some("q")).unwrap().id, "3");
    assert!(find_folder(&files, "Work", Some("z")).is_none());
    assert!(find_folder(&files, "Home", None).is_none());
}

#[test]
fn a_path_is_walked_name_by_name() {
    let mut walk = PathWalk::start("/Work//2026/").unwrap();
    let mut seen = Vec::new();
    while let Some((name, parent)) = walk.next() {
        seen.push((name.to_string(), parent.cloned()));
        let id = format!("id-{name}");
        walk = walk.step(id);
    }
    assert_eq!(
        seen,
        vec![
            ("Work".to_string(), None),
            ("2026".to_string(), Some("id-Work".to_string()))
        ]
    );
    assert_eq!(walk.target(), "id-2026");
    assert_eq!(PathWalk::start("//").unwrap_err().message(), "empty folder path");
}

#[test]
fn deletions_need_an_item_with_a_hash() {
    let mut files = vec![named("1", "a", None), named("2", "b", None)];
    files[1].hash = String::new();
    assert_eq!(deletion_target(&files, "1").unwrap().hash, "h-1");
    assert_eq!(
        deletion_target(&files, "9").unwrap_err().message(),
        "no item with id 9"
    );
    assert_eq!(
        deletion_target(&files, "2").unwrap_err().message(),
        "server returned no hash for 2; cannot delete"
    );
    assert_eq!(
        delete_body(&vec!["a".to_string(), "b\"".to_string()]),
        "{\"hashes\":[\"a\",\"b\\\"\"]}"
    );
    assert_eq!(delete_body(&vec![]), "{\"hashes\":[]}");
}

#[test]
fn upload_replies_are_read() {
    let empty = upload_reply(200, None, " \n".to_string(), Err("eof".to_string())).unwrap();
    assert_eq!(empty.id, "");
    let item = upload_reply(201, None, "{}".to_string(), Ok(named("1", "a", None))).unwrap();
    assert_eq!(item.id, "1");
    assert_eq!(
        upload_reply(200, None, "x".to_string(), Err("bad".to_string()))
            .unwrap_err()
            .message(),
        "invalid response: decode upload response: bad :: x"
    );
    assert_eq!(
        upload_reply(401, None, "no".to_string(), Err(String::new()))
            .unwrap_err()
            .message(),
        "unauthorized (HTTP 401): no"
    );
    assert_eq!(list_reply(304), ListNext::Unchanged);
    assert_eq!(list_reply(200), ListNext::Decode);
    assert_eq!(list_reply(500), ListNext::Refused);
}

#[test]
fn every_error_has_its_message() {
    let s = |x: &str| x.to_string();
    let cases = vec![
        (Error::NotAuthenticated, "not authenticated; run `rr auth`"),
        (
            Error::AuthExpired,
            "authentication expired; run `rr auth` to re-pair",
        ),
        (Error::RefreshFailed(s("x")), "token refresh failed: x"),
        (
            Error::Network(NetworkFault {
                timeout: false,
                connect: false,
                request: false,
                message: s("x"),
            }),
            "network error: x",
        ),
        (Error::Json(s("x")), "json error: x"),
        (
            Error::Io {
                path: s("/a\"b"),
                source: s("x"),
            },
            "io error at \"/a\\\"b\": x",
        ),
        (Error::BareIo(s("x")), "io error: x"),
        (Error::Config(s("x")), "config error: x"),
        (Error::Convert(s("x")), "conversion error: x"),
        (Error::V6Format(s("x")), "v6 format error: x"),
        (
            Error::Api {
                status: 65535,
                body: s("x"),
            },
            "api error: HTTP 65535 – x",
        ),
        (
            Error::RateLimited {
                retry_after_secs: 10,
            },
            "rate limited; retry after 10s",
        ),
        (Error::Cancelled, "operation cancelled"),
        (Error::Job(s("x")), "job error: x"),
        (Error::Other(s("x")), "x"),
    ];
    for (e, text) in cases {
        assert_eq!(e.message(), text);
    }
}

#[test]
fn retryable_errors() {
    let net = |timeout, connect, request| {
        Error::Network(NetworkFault {
            timeout,
            connect,
            request,
            message: String::new(),
        })
    };
    assert!(net(true, false, false).is_retryable());
    assert!(net(false, true, false).is_retryable());
    assert!(net(false, false, true).is_retryable());
    assert!(!net(false, false, false).is_retryable());
    for status in [408, 429, 500, 502, 503, 504] {
        assert!(Error::Api {
            status,
            body: String::new()
        }
        .is_retryable());
    }
    assert!(!Error::Api {
        status: 501,
        body: String::new()
    }
    .is_retryable());
    assert!(Error::RateLimited { retry_after_secs: 0 }.is_retryable());
    assert!(!Error::AuthExpired.is_retryable());
}
