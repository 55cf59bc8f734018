//! The listing of dispatch origins.

use smeltr::commands::origins::render;
use smeltr::dispatch_origins::DispatchOrigin;

#[test]
fn render_empty_origins_shows_placeholder() {
    let s = render(&[], 20);
    assert!(s.contains("KIND"));
    assert!(s.contains("SMELTR_STACK_CAPTURE=1"));
}

#[test]
fn origins_render_caps_to_top_n() {
    let rows: Vec<DispatchOrigin> = (0..50)
        .map(|i| DispatchOrigin {
            kind: format!("k{i}"),
            file_line: format!("f{i}:1"),
            gpu_ns: 1000 - i as u64,
            dispatch_count: 1,
        })
        .collect();
    let s = render(&rows, 5);
    assert!(s.contains("showing top 5 of 50"));
}

#[test]
fn render_formats_seconds() {
    let rows = vec![DispatchOrigin {
        kind: "Matmul".into(),
        file_line: "attention.py:127".into(),
        gpu_ns: 4_310_000_000,
        dispatch_count: 1240,
    }];
    let s = render(&rows, 20);
    assert!(s.contains("Matmul"));
    assert!(s.contains("attention.py:127"));
    assert!(s.contains("4.310s"));
    assert!(s.contains("1240"));
}
