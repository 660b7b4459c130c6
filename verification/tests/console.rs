use base64::Engine as _;
use kx_gateway::console::{packument, Asset, Console, Method, Resolution};
use sha2::{Digest, Sha512};

const SDK_VERSION: &str = "0.4.2";

fn console() -> Console {
    Console {
        assets: vec![
            Asset::new("index.html", "text/html; charset=utf-8"),
            Asset::new("assets/index-3f9a2c.js", "text/javascript; charset=utf-8"),
            Asset::new("assets/index-77b0e1.css", "text/css; charset=utf-8"),
            Asset::new("favicon.svg", "image/svg+xml"),
        ],
        sdk_version: SDK_VERSION.to_string(),
        sdk_tarball: Some(b"not really a tarball".to_vec()),
    }
}

#[test]
fn the_registry_prefix_wins_over_the_spa_fallback() {
    let c = console();
    assert_eq!(
        c.classify("/npm/@kortecx/sdk"),
        Resolution::SdkPackument,
        "the packument path must not fall through to index.html"
    );
    assert_eq!(
        c.classify("/npm/@kortecx%2fsdk"),
        Resolution::SdkPackument,
        "the %2f-encoded scope npm sends must resolve too"
    );
    assert_eq!(c.classify(&format!("/npm/@kortecx/sdk/-/sdk-{SDK_VERSION}.tgz")), Resolution::SdkTarball);
}

#[test]
fn a_near_miss_under_the_registry_prefix_is_not_the_sdk() {
    let c = console();
    for path in ["/npm/@kortecx/sdk-evil", "/npm/@kortecx/other", "/npm/@kortecx/sdk/-/sdk-9.9.9.tgz"] {
        assert!(
            !matches!(c.classify(path), Resolution::SdkPackument | Resolution::SdkTarball),
            "{path} must not resolve to the SDK"
        );
    }
}

#[test]
fn the_packument_advertises_a_reachable_url_and_a_real_integrity() {
    let bytes = b"not really a tarball";
    let doc = packument("127.0.0.1:9999", SDK_VERSION, bytes);
    let v: serde_json::Value = serde_json::from_str(&doc).expect("valid JSON");
    let dist = &v["versions"][SDK_VERSION]["dist"];
    assert_eq!(
        dist["tarball"].as_str().unwrap(),
        format!("http://127.0.0.1:9999/npm/@kortecx/sdk/-/sdk-{SDK_VERSION}.tgz"),
        "the URL must use the request's own authority, not a configured one"
    );
    let want = format!("sha512-{}", base64::engine::general_purpose::STANDARD.encode(Sha512::digest(bytes)));
    assert_eq!(dist["integrity"].as_str().unwrap(), want);
    assert_eq!(v["dist-tags"]["latest"].as_str().unwrap(), SDK_VERSION);
}

#[test]
fn the_embedded_manifest_has_the_spa_entrypoint() {
    let c = console();
    assert!(!c.assets.is_empty(), "the manifest holds at least index.html");
    let i = c.index_asset().expect("index.html is in the manifest");
    assert_eq!(c.assets[i].path, "index.html");
    assert_eq!(c.assets[i].content_type, "text/html; charset=utf-8");
    assert!(!c.assets[i].immutable, "index.html must revalidate so a new release is picked up");
}

#[test]
fn classify_resolves_root_assets_routes_and_misses() {
    let c = console();
    assert!(matches!(c.classify("/"), Resolution::Asset(_)), "/ → index.html");
    assert!(matches!(c.classify("/index.html"), Resolution::Asset(_)));
    for route in [
        "/connect", "/activity", "/chat", "/runs", "/recipes", "/artifacts", "/datasets", "/systems",
        "/settings", "/runs/0123abcd",
    ] {
        assert_eq!(c.classify(route), Resolution::SpaFallback, "{route}");
    }
    assert_eq!(c.classify("/nope.js"), Resolution::NotFound);
    assert_eq!(c.classify("/assets/missing-deadbeef.js"), Resolution::NotFound);
    assert_eq!(c.classify("/../Cargo.toml"), Resolution::NotFound);
}

#[test]
fn hashed_assets_are_immutable_everything_else_revalidates() {
    for asset in &console().assets {
        assert_eq!(asset.immutable, asset.path.starts_with("assets/"), "{} cache class", asset.path);
    }
}

#[test]
fn a_head_request_is_answered_like_a_get() {
    let c = console();
    let get = c.respond(Method::Get, "/assets/index-3f9a2c.js", Some("127.0.0.1:1"));
    let head = c.respond(Method::Head, "/assets/index-3f9a2c.js", Some("127.0.0.1:1"));
    assert_eq!(get.status, 200);
    assert_eq!(head.status, 200);
    assert_eq!(get.headers, head.headers);
    assert_eq!(head.body, get.body);
}

#[test]
fn a_post_is_refused_with_an_allow_header() {
    let r = console().respond(Method::Other, "/", None);
    assert_eq!(r.status, 405);
    assert!(r.headers.iter().any(|(k, _)| k.eq_ignore_ascii_case("allow")));
}

#[test]
fn an_extension_bearing_miss_is_a_404_and_a_route_serves_the_spa() {
    let c = console();
    assert_eq!(c.respond(Method::Get, "/nope.js", None).status, 404);
    let spa = c.respond(Method::Get, "/runs/abc", None);
    assert_eq!(spa.status, 200);
    assert_eq!(spa.body, kx_gateway::console::Body::Asset(0));
}
