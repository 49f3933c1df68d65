use autobricks_dns::service::{exit_reason, product_banner, ExitReason, PRODUCT_VERSION};

#[test]
fn startup_banner_uses_global_product_version() {
    assert!(product_banner().starts_with(&format!("Autobricks DNS {}", PRODUCT_VERSION)));
}

#[test]
fn exit_reason_follows_restart_request() {
    assert_eq!(exit_reason(true), ExitReason::RestartRequested);
    assert_eq!(exit_reason(false), ExitReason::Stopped);
    assert_eq!(
        product_banner(),
        "Autobricks DNS 1.0.0 (C) Copyright 2026 Autobricks, Co. All Rights Reserved."
    );
}
