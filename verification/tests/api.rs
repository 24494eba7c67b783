use iptv_proxy::api::{parse_client_caps, request_base_url, rtp_radio_code, serve_index, Origin};

fn hm(pairs: &[(&str, &str)]) -> Origin {
    let pick = |name: &str| pairs.iter().find(|(k, _)| *k == name).map(|(_, v)| v.to_string());
    Origin {
        forwarded_host: pick("x-forwarded-host"),
        forwarded_proto: pick("x-forwarded-proto"),
        host: pick("host"),
    }
}

#[test]
fn base_url_uses_host_header_with_default_scheme() {
    assert_eq!(
        request_base_url(&hm(&[("host", "192.163.2.90:8080")]), None),
        "http://192.163.2.90:8080"
    );
}

#[test]
fn base_url_prefers_x_forwarded_host_and_proto() {
    let headers = hm(&[
        ("host", "iptv-proxy.internal:8080"),
        ("x-forwarded-host", "iptv.example.com"),
        ("x-forwarded-proto", "https"),
    ]);
    assert_eq!(request_base_url(&headers, None), "https://iptv.example.com");
}

#[test]
fn base_url_picks_first_value_in_xff_list() {
    let headers = hm(&[
        ("x-forwarded-host", "iptv.example.com, internal-lb:8080"),
        ("x-forwarded-proto", "https, http"),
    ]);
    assert_eq!(request_base_url(&headers, None), "https://iptv.example.com");
}

#[test]
fn base_url_falls_back_to_config_when_host_missing() {
    assert_eq!(
        request_base_url(&hm(&[]), Some("http://192.163.2.90:8080")),
        "http://192.163.2.90:8080"
    );
    assert_eq!(
        request_base_url(&hm(&[]), Some("http://192.163.2.90:8080/")),
        "http://192.163.2.90:8080"
    );
}

#[test]
fn base_url_final_fallback_to_localhost() {
    assert_eq!(request_base_url(&hm(&[]), None), "http://localhost:8080");
}

#[test]
fn base_url_ignores_blank_headers() {
    let headers = hm(&[("x-forwarded-host", " , x"), ("x-forwarded-proto", ""), ("host", " h:1 ")]);
    assert_eq!(request_base_url(&headers, None), "http://h:1");
}

#[test]
fn client_caps_are_lowered_trimmed_and_sorted() {
    assert_eq!(
        parse_client_caps(Some("HLS, h264 ,,Aac,hls")).unwrap(),
        vec!["aac".to_string(), "h264".to_string(), "hls".to_string()]
    );
    assert_eq!(parse_client_caps(Some(" , ")).unwrap().len(), 0);
    assert!(parse_client_caps(None).is_none());
}

#[test]
fn stations_have_numbers() {
    assert_eq!(rtp_radio_code("antena1"), Some(1));
    assert_eq!(rtp_radio_code("antena2"), Some(2));
    assert_eq!(rtp_radio_code("antena3"), Some(3));
    assert_eq!(rtp_radio_code("rdpafrica"), Some(4));
    assert_eq!(rtp_radio_code("rdpinternacional"), Some(5));
    assert_eq!(rtp_radio_code("tsf"), None);
}

#[test]
fn page_gets_the_script_unless_the_client_is_a_television() {
    let page = "<head><!--PLAYER_BUNDLE_MARKER--></head>";
    assert_eq!(
        serve_index(page, "Mozilla/5.0 Chrome"),
        "<head><script src=\"lib/hls.min.js\" defer></script></head>"
    );
    assert_eq!(serve_index(page, "Mozilla/5.0 (Web0S; Linux)"), "<head></head>");
    assert_eq!(serve_index(page, "LG webOS.TV"), "<head></head>");
}
