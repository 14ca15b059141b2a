use nylon_engine::access::{
    authorize, check_grant, grpc_check, grpc_intercept, grpc_key, http_authorize, http_check,
    http_key, strip_bearer, text_of_header, Code, Status,
};
use nylon_engine::keys::{ApiKeys, KeyGrant};
use nylon_engine::scope::Scope;
use axum::http::{HeaderMap, HeaderName, HeaderValue};
use tonic::Request;

fn keys() -> ApiKeys {
    ApiKeys::parse(
        r#"[
            {"key": "k-read", "tenant": "acme", "scope": "read"},
            {"key": "k-write", "tenant": "acme", "scope": "write"},
            {"key": "k-admin", "tenant": "*", "scope": "admin"}
        ]"#,
    )
    .unwrap()
}

fn headers(list: &[(&'static str, &str)]) -> HeaderMap {
    let mut map = HeaderMap::new();
    for (name, value) in list {
        map.append(HeaderName::from_static(name), HeaderValue::from_str(value).unwrap());
    }
    map
}

fn grant(tenant: &str, scope: Scope) -> KeyGrant {
    KeyGrant { tenant: tenant.to_string(), scope }
}

#[test]
fn open_mode_passes_through() {
    let req = Request::new(());
    assert!(grpc_intercept(None, req).is_ok());
}

#[test]
fn missing_key_rejected() {
    let keys = keys();
    let req = Request::new(());
    let err = grpc_intercept(Some(&keys), req).unwrap_err();
    assert_eq!(err.code(), Code::Unauthenticated);
}

#[test]
fn valid_key_grant_in_extensions() {
    let keys = keys();
    let mut req = Request::new(());
    req.metadata_mut().insert("x-api-key", "k-write".parse().unwrap());
    let req = grpc_intercept(Some(&keys), req).unwrap();
    let grant = req.extensions().get::<KeyGrant>().unwrap();
    assert_eq!(grant.tenant, "acme");
    assert_eq!(grant.scope, Scope::Write);
}

#[test]
fn authorize_checks_scope_and_tenant() {
    let grant = KeyGrant { tenant: "acme".into(), scope: Scope::Read };
    let err = authorize(Some(&grant), Scope::Write, "acme").unwrap_err();
    assert_eq!(err.code(), Code::PermissionDenied);
    assert!(authorize(Some(&grant), Scope::Read, "acme").is_ok());
    let write = KeyGrant { tenant: "acme".into(), scope: Scope::Write };
    let err = authorize(Some(&write), Scope::Write, "other").unwrap_err();
    assert_eq!(err.code(), Code::PermissionDenied);
    let admin = KeyGrant { tenant: "*".into(), scope: Scope::Admin };
    assert!(authorize(Some(&admin), Scope::Write, "other").is_ok());
    assert!(authorize(None, Scope::Write, "other").is_ok());
}

#[test]
fn an_open_engine_leaves_a_request_as_it_is() {
    let mut req = Request::new(());
    req.metadata_mut().insert("x-api-key", "whatever".parse().unwrap());
    let req = grpc_intercept(None, req).unwrap();
    assert!(req.extensions().get::<KeyGrant>().is_none());
    assert_eq!(req.metadata().get("x-api-key").unwrap().to_str().unwrap(), "whatever");
    assert!(http_authorize(None, &HeaderMap::new(), Scope::Admin, Some("t")).unwrap().is_none());
}

#[test]
fn grpc_refusals_say_what_is_wrong() {
    let keys = keys();
    let err = grpc_intercept(Some(&keys), Request::new(())).unwrap_err();
    assert_eq!(err.message(), "缺少 x-api-key（引擎已启用 API key 鉴权）");
    let mut req = Request::new(());
    req.metadata_mut().insert("x-api-key", "nope".parse().unwrap());
    let err = grpc_intercept(Some(&keys), req).unwrap_err();
    assert_eq!(err.code(), Code::Unauthenticated);
    assert_eq!(err.message(), "x-api-key 无效");
}

#[test]
fn an_admitted_request_differs_only_by_its_grant() {
    let keys = keys();
    let mut req = Request::new(());
    req.metadata_mut().insert("x-api-key", "k-read".parse().unwrap());
    req.metadata_mut().append("trace", "17".parse().unwrap());
    req.metadata_mut().append("trace", "18".parse().unwrap());
    req.metadata_mut().insert_bin("trace-bin", tonic::metadata::MetadataValue::from_bytes(b"\x00"));
    req.extensions_mut().insert(7u32);
    req.extensions_mut().insert("seat".to_string());
    let req = grpc_intercept(Some(&keys), req).unwrap();
    let traces: Vec<&str> =
        req.metadata().get_all("trace").iter().map(|v| v.to_str().unwrap()).collect();
    assert_eq!(traces, vec!["17", "18"]);
    assert!(req.metadata().get_bin("trace-bin").is_some());
    assert_eq!(req.extensions().get::<u32>(), Some(&7));
    assert_eq!(req.extensions().get::<String>().unwrap(), "seat");
    assert_eq!(req.extensions().len(), 3);
    assert_eq!(req.metadata().get("trace").unwrap().to_str().unwrap(), "17");
    assert_eq!(grpc_key(&req).unwrap(), "k-read");
}

#[test]
fn a_second_grant_takes_the_place_of_the_first() {
    let keys = keys();
    let mut req = Request::new(());
    req.extensions_mut().insert(grant("stale", Scope::Admin));
    req.metadata_mut().insert("x-api-key", "k-read".parse().unwrap());
    let req = grpc_intercept(Some(&keys), req).unwrap();
    assert_eq!(req.extensions().get::<KeyGrant>().unwrap().tenant, "acme");
}

#[test]
fn grpc_takes_the_first_readable_key() {
    let mut req = Request::new(());
    assert!(grpc_key(&req).is_none());
    req.metadata_mut().append("x-api-key", "one".parse().unwrap());
    req.metadata_mut().append("x-api-key", "two".parse().unwrap());
    assert_eq!(grpc_key(&req).unwrap(), "one");
    let mut headers = HeaderMap::new();
    headers.insert("x-api-key", HeaderValue::from_bytes(b"k\xc3\xa9y").unwrap());
    let req = Request::from_parts(
        tonic::metadata::MetadataMap::from_headers(headers),
        tonic::Extensions::default(),
        (),
    );
    assert!(grpc_key(&req).is_none());
}

#[test]
fn a_presented_grpc_key_is_looked_up() {
    let keys = keys();
    assert_eq!(grpc_check(&keys, Some("k-admin".to_string())).unwrap().tenant, "*");
    let err = grpc_check(&keys, Some("K-ADMIN".to_string())).unwrap_err();
    assert_eq!(err.code(), Code::Unauthenticated);
    assert_eq!(grpc_check(&keys, None).unwrap_err().code(), Code::Unauthenticated);
}

#[test]
fn the_key_header_goes_before_the_bearer_token() {
    let both = headers(&[("authorization", "Bearer k-read"), ("x-api-key", "k-write")]);
    assert_eq!(http_key(&both).unwrap(), "k-write");
    let bearer = headers(&[("authorization", "Bearer k-read")]);
    assert_eq!(http_key(&bearer).unwrap(), "k-read");
    assert!(http_key(&headers(&[])).is_none());
    assert!(http_key(&headers(&[("authorization", "Basic k-read")])).is_none());
    assert!(http_key(&headers(&[("authorization", "bearer k-read")])).is_none());
    assert_eq!(http_key(&headers(&[("authorization", "Bearer ")])).unwrap(), "");
    assert_eq!(http_key(&headers(&[("authorization", "Bearer  x")])).unwrap(), " x");
}

#[test]
fn an_unreadable_key_header_is_passed_over() {
    let mut map = headers(&[("authorization", "Bearer k-read")]);
    map.insert("x-api-key", HeaderValue::from_bytes(b"\xff").unwrap());
    assert_eq!(http_key(&map).unwrap(), "k-read");
    let mut map = HeaderMap::new();
    map.insert("authorization", HeaderValue::from_bytes(b"Bearer \xff").unwrap());
    assert!(http_key(&map).is_none());
}

#[test]
fn header_text_is_printable_ascii_and_tabs() {
    assert_eq!(text_of_header(&b"a\tb ~".to_vec()).unwrap(), "a\tb ~");
    assert_eq!(text_of_header(&Vec::new()).unwrap(), "");
    assert!(text_of_header(&vec![127]).is_none());
    assert!(text_of_header(&vec![31]).is_none());
    assert!(text_of_header(&vec![128]).is_none());
}

#[test]
fn bearer_tokens() {
    assert_eq!(strip_bearer("Bearer abc").unwrap(), "abc");
    assert_eq!(strip_bearer("Bearer ").unwrap(), "");
    assert!(strip_bearer("Bearer").is_none());
    assert!(strip_bearer("").is_none());
}

#[test]
fn http_requests_are_checked_in_turn() {
    let keys = keys();
    let none = http_authorize(Some(&keys), &headers(&[]), Scope::Read, None).unwrap_err();
    assert_eq!(none.code(), Code::Unauthenticated);
    assert_eq!(none.message(), "缺少 API key（x-api-key 头或 Bearer）");

    let wrong = headers(&[("x-api-key", "nope")]);
    let unknown = http_authorize(Some(&keys), &wrong, Scope::Read, None).unwrap_err();
    assert_eq!(unknown.code(), Code::Unauthenticated);
    assert_eq!(unknown.message(), "API key 无效");

    let read = headers(&[("x-api-key", "k-read")]);
    let low = http_authorize(Some(&keys), &read, Scope::Write, Some("other")).unwrap_err();
    assert_eq!(low.code(), Code::PermissionDenied);
    assert_eq!(low.message(), "key 档位 read 不足：该操作需要 write");

    let other = http_authorize(Some(&keys), &read, Scope::Read, Some("other")).unwrap_err();
    assert_eq!(other.code(), Code::PermissionDenied);
    assert_eq!(other.message(), "key 绑定租户为 acme，无权访问 tenant=other");

    let grant = http_authorize(Some(&keys), &read, Scope::Read, Some("acme")).unwrap().unwrap();
    assert_eq!(grant.tenant, "acme");
    assert_eq!(grant.scope, Scope::Read);
    assert!(http_authorize(Some(&keys), &read, Scope::Read, None).unwrap().is_some());
}

#[test]
fn a_key_for_all_tenants_may_do_everything() {
    let keys = keys();
    for needed in [Scope::Read, Scope::Write, Scope::Admin] {
        for tenant in [None, Some("acme"), Some("other"), Some("")] {
            assert!(http_check(&keys, Some("k-admin".to_string()), needed, tenant).is_ok());
        }
    }
}

#[test]
fn a_bound_key_stays_within_its_tenant() {
    for held in [Scope::Read, Scope::Write, Scope::Admin] {
        for needed in [Scope::Read, Scope::Write, Scope::Admin] {
            let err = authorize(Some(&grant("acme", held)), needed, "other").unwrap_err();
            assert_eq!(err.code(), Code::PermissionDenied);
        }
    }
}

#[test]
fn a_higher_level_permits_no_less() {
    for held in [Scope::Read, Scope::Write, Scope::Admin] {
        for needed in [Scope::Read, Scope::Write, Scope::Admin] {
            let allowed = check_grant(&grant("acme", held), needed, Some("acme")).is_ok();
            assert_eq!(allowed, held >= needed);
            assert_eq!(allowed, held.allows(needed));
        }
    }
}

#[test]
fn both_protocols_refuse_a_known_key_alike() {
    let keys = keys();
    let over_http = http_check(&keys, Some("k-read".to_string()), Scope::Admin, Some("acme"));
    let grant = grpc_check(&keys, Some("k-read".to_string())).unwrap();
    let over_grpc = authorize(Some(&grant), Scope::Admin, "acme").unwrap_err();
    let over_http = over_http.unwrap_err();
    assert_eq!(over_http.message(), over_grpc.message());
    assert_eq!(over_http.code(), over_grpc.code());
}

#[test]
fn refusals_keep_their_words() {
    let status = Status::unauthenticated("no");
    assert_eq!((status.code(), status.message()), (Code::Unauthenticated, "no"));
    let status = Status::permission_denied("never".to_string());
    assert_eq!((status.code(), status.message()), (Code::PermissionDenied, "never"));
}

#[test]
fn a_tenant_is_covered_by_itself_and_by_the_star() {
    assert!(grant("acme", Scope::Read).covers_tenant("acme"));
    assert!(!grant("acme", Scope::Admin).covers_tenant("acm"));
    assert!(!grant("acme", Scope::Admin).covers_tenant("*"));
    assert!(grant("*", Scope::Admin).covers_tenant("anything"));
}
