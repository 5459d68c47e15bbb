use gloryport::popup::{
    cancel_active, clamp_pos, closed_recently, hit_test, is_open, scroll_step, sufijo_con_elipsis,
    truncate_ports, was_recent, Action, Hit, Layout, PopupHost, PopupState, Rect, TrayClick,
    FOOTER_ITEM_H, MAX_TOTAL_ROWS, MAX_VISIBLE_ROWS, PAD_X, REOPEN_GUARD_MS, ROW_H, VK_ESCAPE,
    VK_RETURN,
};
use gloryport::ports::PortInfo;

fn row(y: i32) -> (i32, i32) {
    (PAD_X, y)
}

fn port(n: u16) -> PortInfo {
    PortInfo {
        port: n,
        pid: u32::from(n) + 100,
        address: "0.0.0.0".into(),
        process_name: "node.exe".into(),
        process_path: Some(r"C:\Program Files\nodejs\node.exe".into()),
        process_cmd: None,
        proyecto: None,
    }
}

#[test]
fn layout_grows_with_rows_and_caps_visible() {
    let empty = Layout::new(0);
    assert_eq!(empty.rows_visible, 1);
    assert_eq!(empty.max_scroll, 0);

    let five = Layout::new(5);
    assert_eq!(five.rows_visible, 5);
    assert_eq!(five.max_scroll, 0);
    assert!(!five.has_scroll);
    assert_eq!(five.height, 5 * ROW_H + 94);

    let nine = Layout::new(9);
    assert_eq!(nine.rows_visible, MAX_VISIBLE_ROWS);
    assert_eq!(nine.max_scroll, 0);
    assert!(!nine.has_scroll);
}

#[test]
fn hit_test_rows_and_footer() {
    let layout = Layout::new(8);
    assert_eq!(hit_test(row(layout.rows_top + 5), &layout, 0, 8), Hit::Row(0));
    assert_eq!(hit_test(row(layout.rows_top + ROW_H + 5), &layout, 0, 8), Hit::Row(1));
    assert_eq!(hit_test(row(layout.footer_top + 5), &layout, 0, 8), Hit::Refresh);
    assert_eq!(
        hit_test(row(layout.footer_top + FOOTER_ITEM_H + 5), &layout, 0, 8),
        Hit::ToggleAutostart
    );
    assert_eq!(hit_test((2, 2), &layout, 0, 8), Hit::Outside);
}

#[test]
fn hit_test_applies_scroll_and_ignores_empty_rows() {
    let layout = Layout::new(10);
    let bottom = layout.rows_top + (MAX_VISIBLE_ROWS as i32 - 1) * ROW_H + 5;
    assert_eq!(hit_test(row(bottom), &layout, 0, 10), Hit::Row(8));
    assert_eq!(hit_test(row(bottom), &layout, 1, 10), Hit::Row(9));
    assert_eq!(hit_test(row(bottom), &layout, 1, 0), Hit::Outside);
}

#[test]
fn clamp_pos_keeps_window_inside_work_area() {
    let work = Rect { left: 0, top: 0, right: 1920, bottom: 1040 };
    assert_eq!(clamp_pos(0, 0, 300, 400, work), (0, 0));
    assert_eq!(clamp_pos(1800, 900, 300, 400, work), (1620, 640));
    assert_eq!(clamp_pos(-50, -20, 300, 400, work), (0, 0));
}

#[test]
fn clamp_pos_window_larger_than_area_sticks_to_origin() {
    let work = Rect { left: 10, top: 20, right: 200, bottom: 300 };
    assert_eq!(clamp_pos(150, 250, 500, 500, work), (10, 20));
}

#[test]
fn wheel_scroll_is_bounded() {
    assert_eq!(scroll_step(0, 120, 5), 0);
    assert_eq!(scroll_step(2, 120, 5), 0);
    assert_eq!(scroll_step(0, -120, 5), 3);
    assert_eq!(scroll_step(4, -120, 5), 5);
    assert_eq!(scroll_step(5, -120, 5), 5);
}

#[test]
fn wheel_scroll_never_leaves_range() {
    for max in 0..12usize {
        for cur in 0..=max {
            assert!(scroll_step(cur, -120, max) <= max);
            assert!(scroll_step(cur, 120, max) <= cur);
        }
    }
    assert_eq!(scroll_step(usize::MAX - 1, -120, usize::MAX), usize::MAX);
}

#[test]
fn truncate_ports_keeps_cap() {
    let rows: Vec<PortInfo> = (0..65).map(port).collect();
    let kept = truncate_ports(rows);
    assert_eq!(kept.len(), MAX_TOTAL_ROWS);
}

#[test]
fn truncate_ports_keeps_order_of_the_first() {
    let rows: Vec<PortInfo> = (0..65).map(port).collect();
    let kept = truncate_ports(rows);
    assert_eq!(kept[0].port, 0);
    assert_eq!(kept[59].port, 59);
    let few: Vec<PortInfo> = (0..3).map(port).collect();
    assert_eq!(truncate_ports(few).len(), 3);
}

#[test]
fn close_suppression_only_after_a_real_close() {
    assert!(!was_recent(5_000, 0, 250));
    assert!(was_recent(5_100, 5_000, 250));
    assert!(!was_recent(5_500, 5_000, 250));
}

#[test]
fn close_suppression_window_is_open_at_its_end() {
    assert!(was_recent(5_249, 5_000, 250));
    assert!(!was_recent(5_250, 5_000, 250));
}

#[test]
fn wheel_scrolls_three_rows_per_notch() {
    assert_eq!(scroll_step(0, -240, 10), 6);
    assert_eq!(scroll_step(9, 360, 10), 0);
    assert_eq!(scroll_step(9, 240, 10), 3);
    assert_eq!(scroll_step(0, -1200, 10), 10);
    // Less than one notch (high-resolution wheel) still moves one notch.
    assert_eq!(scroll_step(0, -30, 10), 3);
    assert_eq!(scroll_step(5, 30, 10), 2);
    assert_eq!(scroll_step(0, i32::MIN, 10), 10);
    assert_eq!(scroll_step(usize::MAX, i32::MAX, usize::MAX), usize::MAX - 3 * 17_895_697);
}

#[test]
fn close_suppression_with_clock_going_back() {
    assert!(was_recent(4_000, 5_000, 250));
}

#[test]
fn sufijo_con_elipsis_conserva_el_final() {
    let ruta = "…\\codex-bridge\\bridge\\server.js";
    assert_eq!(sufijo_con_elipsis(ruta, |s| s.len() <= 40), ruta);
    assert_eq!(sufijo_con_elipsis(ruta, |s| s.len() <= 20), "…\\bridge\\server.js");
    assert_eq!(sufijo_con_elipsis("abc", |s| s.len() <= 1), "…");
}

#[test]
fn sufijo_con_elipsis_por_caracteres() {
    assert_eq!(sufijo_con_elipsis("abcdef", |s| s.chars().count() <= 4), "…def");
    assert_eq!(sufijo_con_elipsis("", |_| false), "…");
}

#[test]
fn popup_state_first_choice_wins() {
    let mut st = PopupState::new(vec![port(3000), port(3001)], false);
    let layout = st.layout();
    assert!(st.on_click(PAD_X, layout.rows_top + ROW_H + 5));
    assert!(!st.on_key(VK_ESCAPE));
    match st.into_action() {
        Action::Kill(p) => assert_eq!(p.port, 3001),
        other => panic!("unexpected {:?}", other),
    }
}

#[test]
fn popup_state_escape_and_enter() {
    let mut st = PopupState::new(vec![port(3000)], true);
    assert!(st.autostart_on());
    assert!(!st.on_key(0x41));
    assert!(st.on_key(VK_ESCAPE));
    assert!(matches!(st.into_action(), Action::Nothing));

    let mut st = PopupState::new(vec![port(3000)], false);
    assert!(st.set_hover(Some(Hit::Refresh)));
    assert!(!st.set_hover(Some(Hit::Refresh)));
    assert!(st.on_key(VK_RETURN));
    assert!(matches!(st.into_action(), Action::Refresh));
}

#[test]
fn popup_state_wheel_and_hover_label() {
    let rows: Vec<PortInfo> = (0..12).map(port).collect();
    let mut st = PopupState::new(rows, false);
    assert_eq!(st.layout().max_scroll, 3);
    assert!(st.set_hover(Some(Hit::Row(1))));
    assert_eq!(st.hover_label().as_deref(), Some("node.exe"));
    assert!(st.on_wheel(-120));
    assert_eq!(st.scroll(), 3);
    assert_eq!(st.hover(), None);
    assert!(!st.on_wheel(-120));
    assert!(st.on_wheel(120));
    assert_eq!(st.scroll(), 0);
    assert!(st.arm_track_leave());
    assert!(!st.arm_track_leave());
    st.untrack();
    assert!(st.arm_track_leave());
}

#[test]
fn popup_state_keeps_at_most_the_cap() {
    let rows: Vec<PortInfo> = (0..70).map(port).collect();
    let st = PopupState::new(rows, false);
    assert_eq!(st.ports().len(), MAX_TOTAL_ROWS);
}

#[test]
fn tray_click_toggles_and_swallows() {
    let mut host = PopupHost::new();
    assert!(!is_open(&host));
    assert_eq!(host.tray_click(1_000), TrayClick::Show);
    assert!(host.begin(vec![port(3000)], false));
    assert!(is_open(&host));
    assert!(!host.begin(vec![port(3001)], false));
    assert_eq!(host.tray_click(1_100), TrayClick::CancelActive);
    assert!(cancel_active(&mut host));
    assert!(!cancel_active(&mut host));
    assert!(matches!(host.end(2_000), Action::Nothing));
    assert!(!is_open(&host));
    assert!(closed_recently(&host, 2_100, REOPEN_GUARD_MS));
    assert_eq!(host.tray_click(2_100), TrayClick::Swallow);
    assert_eq!(host.tray_click(2_000 + REOPEN_GUARD_MS - 1), TrayClick::Swallow);
    assert_eq!(host.tray_click(2_000 + REOPEN_GUARD_MS), TrayClick::Show);
    assert!(!cancel_active(&mut host));
}

#[test]
fn host_finish_records_choice() {
    let mut host = PopupHost::new();
    assert!(host.finish(Action::Refresh));
    assert!(host.begin(vec![port(3000)], true));
    assert!(host.finish(Action::ToggleAutostart));
    assert!(!host.finish(Action::Refresh));
    assert!(matches!(host.end(10), Action::ToggleAutostart));
    assert_eq!(host.last_closed_ms, 10);
}
