use tedge_core::http_proxy::{
    jwt_token_response, C8yEndPoint, C8yEndPointUnInitialised, EndPoint, HttpProxyError,
};

#[test]
fn get_url_for_get_id_returns_correct_address() {
    let c8y_uninitialised =
        C8yEndPointUnInitialised::new("test_host".to_string(), "test_device".to_string());
    let c8y = C8yEndPoint::new(&c8y_uninitialised, "internal-id".to_string());
    let res = c8y.get_url_for_get_id();

    assert_eq!(
        res,
        "https://test_host/identity/externalIds/c8y_Serial/test_device"
    );
}

#[test]
fn get_url_for_sw_list_returns_correct_address() {
    let c8y_uninitialised =
        C8yEndPointUnInitialised::new("test_host".to_string(), "test_device".to_string());
    let c8y = C8yEndPoint::new(&c8y_uninitialised, "12345".to_string());
    let res = c8y.get_url_for_sw_list();

    assert_eq!(res, "https://test_host/inventory/managedObjects/12345");
}

/// A host that already carries a scheme is not given a second one.
#[test]
fn base_url_keeps_existing_scheme() {
    let c8y_uninitialised =
        C8yEndPointUnInitialised::new("http://test_host".to_string(), "dev".to_string());
    assert_eq!(c8y_uninitialised.get_base_url(), "http://test_host");
    assert_eq!(
        c8y_uninitialised.get_url_for_get_id(),
        "http://test_host/identity/externalIds/c8y_Serial/dev"
    );
}

#[test]
fn event_urls_are_built_from_the_host() {
    let c8y_uninitialised =
        C8yEndPointUnInitialised::new("test_host".to_string(), "dev".to_string());
    let c8y = C8yEndPoint::new(&c8y_uninitialised, "42".to_string());
    assert_eq!(c8y.get_url_for_create_event(), "https://test_host/event/events/");
    assert_eq!(
        c8y.get_url_for_event_binary_upload("456"),
        "https://test_host/event/events/456/binaries"
    );
}

fn tenant_endpoint() -> C8yEndPoint {
    let uninit = C8yEndPointUnInitialised::new("test.test.com".to_string(), "dev".to_string());
    C8yEndPoint::new(&uninit, "internal-id".to_string())
}

/// URLs whose host shares the domain behind the tenant label are in the
/// tenant's domain, whatever the scheme, port or path.
#[test]
fn url_is_my_tenant_correct_urls() {
    let c8y = tenant_endpoint();
    for url in [
        "http://aaa.test.com",
        "https://aaa.test.com",
        "ftp://aaa.test.com",
        "mqtt://aaa.test.com",
        "https://t1124124.test.com",
        "https://t1124124.test.com:12345",
        "https://t1124124.test.com/path",
        "https://t1124124.test.com/path/to/file.test",
        "https://t1124124.test.com/path/to/file",
    ] {
        assert!(c8y.url_is_in_my_tenant_domain(url), "{url}");
    }
}

/// Strings that do not parse as a URL with a host, or whose domain
/// differs, are not in the tenant's domain.
#[test]
fn url_is_my_tenant_incorrect_urls() {
    let c8y = tenant_endpoint();
    for url in [
        "test.com",
        "http://test.co",
        "http://test.co.te",
        "http://test.com:123456",
        "http://test.com::12345",
    ] {
        assert!(!c8y.url_is_in_my_tenant_domain(url), "{url}");
    }
}

/// An unresolved endpoint is resolved by the first retrieved id and
/// stays resolved; a failed retrieval leaves it unresolved and is
/// reported.
#[test]
fn endpoint_initialisation() {
    let uninit = C8yEndPointUnInitialised::new("test_host".to_string(), "dev".to_string());
    let mut state = EndPoint::Uninitialised(uninit);
    assert!(state.needs_init());

    assert!(matches!(
        state.apply_internal_id(None),
        Err(HttpProxyError::FailedToRetrieveC8yInternalId)
    ));
    assert!(state.needs_init());

    let resolved = state.apply_internal_id(Some("123".to_string())).unwrap();
    assert_eq!(resolved.c8y_internal_id, "123");
    assert_eq!(resolved.c8y_host, "test_host");
    assert!(!state.needs_init());

    // a later retrieval outcome no longer matters
    let again = state.apply_internal_id(Some("456".to_string())).unwrap();
    assert_eq!(again.c8y_internal_id, "123");
}

/// The token retrieval maps each wait outcome to its error, and hands a
/// received payload through.
#[test]
fn jwt_token_outcomes() {
    assert_eq!(jwt_token_response(None), Err(HttpProxyError::RequestTimeout));
    assert_eq!(
        jwt_token_response(Some(None)),
        Err(HttpProxyError::InvalidMqttMessage)
    );
    assert_eq!(
        jwt_token_response(Some(Some("71,token".to_string()))),
        Ok("71,token".to_string())
    );
}
