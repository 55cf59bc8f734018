//! Windows of evals and scopes.

use smeltr::event::{Event, Payload, Source, StackFrame, Uuid};
use smeltr::windows::{ASYNC_GRACE_NS, eval_at, eval_windows, innermost_index, scope_windows, ScopeSweep};

fn ev(seq: u64, ts: u64, payload: Payload) -> Event {
    Event {
        ts_mono_ns: ts,
        ts_wall_ns: ts,
        session_id: Uuid::nil(),
        source: Source::PythonSidecar,
        pid: None,
        seq,
        payload,
    }
}

fn entered(seq: u64, ts: u64, id: u64, qualname: &str) -> Event {
    ev(
        seq,
        ts,
        Payload::ModuleEntered {
            module_call_id: id,
            module_def_id: 0,
            qualname: qualname.into(),
            class_name: "Scope".into(),
            parent_call_id: None,
            depth: 0,
            fields: Default::default(),
        },
    )
}

fn returned(seq: u64, ts: u64, id: u64) -> Event {
    ev(seq, ts, Payload::ModuleReturned { module_call_id: id })
}

fn eval_in(seq: u64, ts: u64, id: u64, stack: Vec<u64>, frames: Vec<StackFrame>) -> Event {
    ev(
        seq,
        ts,
        Payload::MlxEvalEntered {
            call_id: id,
            array_count: 1,
            stream: "gpu".into(),
            module_stack: stack,
            stack_frames: frames,
        },
    )
}

fn eval_out(seq: u64, ts: u64, id: u64, was_async: bool) -> Event {
    ev(
        seq,
        ts,
        Payload::MlxEvalReturned {
            call_id: id,
            duration_ns: 0,
            was_async,
        },
    )
}

#[test]
fn async_eval_window_gets_the_grace_tail() {
    let evs = vec![
        eval_in(1, 100, 1, vec![], vec![]),
        eval_out(2, 200, 1, true),
    ];
    let w = eval_windows(&evs);
    assert_eq!(w.len(), 1);
    assert_eq!(w[0].t_in, 100);
    assert_eq!(w[0].t_out, 200 + ASYNC_GRACE_NS);
}

#[test]
fn sync_eval_window_ends_at_the_return() {
    let evs = vec![
        eval_in(1, 100, 1, vec![], vec![]),
        eval_out(2, 200, 1, false),
    ];
    assert_eq!(eval_windows(&evs)[0].t_out, 200);
}

#[test]
fn unreturned_eval_is_dropped() {
    assert!(eval_windows(&[eval_in(1, 100, 1, vec![], vec![])]).is_empty());
}

#[test]
fn eval_window_carries_stack_and_top_frame() {
    let frames = vec![StackFrame {
        filename: "/src/pipeline/denoise.py".into(),
        lineno: 42,
        funcname: "step".into(),
    }];
    let evs = vec![
        eval_in(1, 100, 1, vec![7], frames),
        eval_out(2, 200, 1, false),
    ];
    let w = &eval_windows(&evs)[0];
    assert_eq!(w.module_stack, vec![7]);
    assert_eq!(w.top_frame.as_deref(), Some("denoise.py:42"));
}

#[test]
fn scope_window_closes_at_its_return() {
    let evs = vec![entered(1, 10, 1, "a"), returned(2, 90, 1)];
    let r = scope_windows(&evs);
    assert_eq!(r.windows.len(), 1);
    assert_eq!((r.windows[0].t_in, r.windows[0].t_out), (10, 90));
    assert_eq!(r.malformed_returns, 0);
}

#[test]
fn unreturned_scope_runs_to_the_last_event() {
    let evs = vec![entered(1, 10, 1, "a"), entered(2, 20, 2, "b")];
    let r = scope_windows(&evs);
    assert_eq!(r.windows[0].t_out, 20);
    assert_eq!(r.malformed_returns, 2, "both calls left open");
}

#[test]
fn out_of_order_return_closes_the_call_it_names() {
    let evs = vec![
        entered(1, 10, 1, "outer"),
        entered(2, 20, 2, "inner"),
        returned(3, 30, 1),
        returned(4, 40, 2),
    ];
    let r = scope_windows(&evs);
    let outer = r.windows.iter().find(|w| w.qualname == "outer").unwrap();
    let inner = r.windows.iter().find(|w| w.qualname == "inner").unwrap();
    assert_eq!(outer.t_out, 30);
    assert_eq!(inner.t_out, 40);
    assert_eq!(r.malformed_returns, 0);
}

#[test]
fn orphan_return_is_counted_and_closes_nothing() {
    let evs = vec![
        entered(1, 10, 1, "a"),
        returned(2, 20, 99),
        returned(3, 30, 1),
    ];
    let r = scope_windows(&evs);
    assert_eq!(r.windows[0].t_out, 30, "the live scope survived");
    assert_eq!(r.malformed_returns, 1);
}

#[test]
fn sweep_reports_the_innermost_open_scope() {
    let evs = vec![
        entered(1, 10, 1, "outer"),
        entered(2, 20, 2, "inner"),
        returned(3, 30, 2),
        returned(4, 40, 1),
    ];
    let r = scope_windows(&evs);
    let mut sweep = ScopeSweep::new(&r.windows);
    assert_eq!(
        sweep.innermost_at(15).map(|w| &w.qualname[..]),
        Some("outer")
    );
    assert_eq!(
        sweep.innermost_at(25).map(|w| &w.qualname[..]),
        Some("inner")
    );
    // Within the grace tail, `inner` still owns the work it queued.
    assert_eq!(
        sweep.innermost_at(35).map(|w| &w.qualname[..]),
        Some("inner")
    );
    // Past both grace tails, nothing is open.
    assert_eq!(
        sweep
            .innermost_at(40 + ASYNC_GRACE_NS + 1)
            .map(|w| &w.qualname[..]),
        None
    );
}

#[test]
fn sweep_returns_none_before_any_scope_opens() {
    let evs = vec![entered(1, 100, 1, "a"), returned(2, 200, 1)];
    let r = scope_windows(&evs);
    assert!(ScopeSweep::new(&r.windows).innermost_at(50).is_none());
}
