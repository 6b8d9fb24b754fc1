use smwe_editor::exit_scan::{
    ExitScanMsg, ExitScanReport, ExitScanState, ExitScanUi, UndefinedExit, UndefinedExitKind,
};

fn report(findings: Vec<UndefinedExit>, skipped: u32) -> ExitScanReport {
    ExitScanReport { levels_scanned: 512, levels_skipped: skipped, findings }
}

#[test]
fn scan_runs_reports_and_cancels() {
    let mut ui = ExitScanUi::new();
    assert!(!ui.is_running());
    assert!(ui.start());
    assert!(ui.is_running());
    assert!(!ui.start(), "a second start while running launches nothing");
    ui.poll(vec![ExitScanMsg::Progress(4), ExitScanMsg::Progress(8)]);
    assert_eq!(ui.state, ExitScanState::Running { scanned: 8 });
    ui.poll(vec![ExitScanMsg::Done(Ok(report(vec![], 0))), ExitScanMsg::Progress(99)]);
    assert!(ui.has_report());
    assert!(!ui.is_running());
    assert!(ui.start());
    assert!(ui.cancel());
    assert_eq!(ui.state, ExitScanState::Idle);
    assert!(!ui.cancel());
}

#[test]
fn scan_failure_and_cancel_messages() {
    let mut ui = ExitScanUi::new();
    ui.start();
    ui.poll(vec![ExitScanMsg::Done(Err("scan cancelled".to_string()))]);
    assert_eq!(ui.state, ExitScanState::Idle);
    ui.start();
    ui.poll(vec![ExitScanMsg::Done(Err("bad rom".to_string()))]);
    assert_eq!(ui.state, ExitScanState::Failed("bad rom".to_string()));
    ui.set_failed("Could not read ROM".to_string());
    ui.poll(vec![ExitScanMsg::Progress(3)]);
    assert_eq!(ui.state, ExitScanState::Failed("Could not read ROM".to_string()));
}

#[test]
fn summary_and_finding_texts() {
    let f1 = UndefinedExit { level: 0x105, screen: 3, kind: UndefinedExitKind::NoExitRecord };
    let f2 = UndefinedExit {
        level: 0x1A,
        screen: 0,
        kind: UndefinedExitKind::UndefinedDestination { via_secondary: Some(0x3), destination: 0x100 },
    };
    let f3 = UndefinedExit {
        level: 0x2,
        screen: 12,
        kind: UndefinedExitKind::UndefinedDestination { via_secondary: None, destination: 0 },
    };
    assert_eq!(
        ExitScanUi::finding_text(&f1),
        "Level $105, screen 3 \u{2014} exit-enabled tiles but no screen exit defined"
    );
    assert_eq!(
        ExitScanUi::finding_text(&f2),
        "Level $01A, screen 0 \u{2014} exit leads to level $100 (TEST) via secondary exit $003"
    );
    assert_eq!(ExitScanUi::finding_text(&f3), "Level $002, screen 12 \u{2014} exit leads to level $000 (TEST)");
    assert_eq!(
        ExitScanUi::summary_text(&report(vec![f1], 0)),
        "Scanned 512 levels \u{2014} 1 undefined exit found."
    );
    assert_eq!(
        ExitScanUi::summary_text(&report(vec![f1, f2], 1)),
        "Scanned 512 levels \u{2014} 2 undefined exits found. (1 level skipped: unparseable data)"
    );
    assert_eq!(
        ExitScanUi::summary_text(&report(vec![], 3)),
        "Scanned 512 levels \u{2014} 0 undefined exits found. (3 levels skipped: unparseable data)"
    );
}

#[test]
fn report_appears_only_from_a_successful_done_while_running() {
    let mut ui = ExitScanUi::new();
    ui.poll(vec![ExitScanMsg::Done(Ok(report(vec![], 0)))]);
    assert!(!ui.has_report(), "messages while idle make no report");
    ui.set_failed("x".to_string());
    ui.poll(vec![ExitScanMsg::Done(Ok(report(vec![], 0)))]);
    assert!(!ui.has_report(), "messages after a failure make no report");
    ui.start();
    ui.poll(vec![ExitScanMsg::Progress(1), ExitScanMsg::Done(Err("bad".to_string()))]);
    assert!(!ui.has_report());
    ui.start();
    let r = report(vec![], 3);
    ui.poll(vec![ExitScanMsg::Progress(2), ExitScanMsg::Done(Ok(r.clone())), ExitScanMsg::Done(Ok(report(vec![], 9)))]);
    assert!(ui.has_report() && !ui.is_running());
    assert_eq!(ui.state, ExitScanState::Done(r));
    ui.start();
    assert!(ui.is_running() && !ui.has_report());
}
