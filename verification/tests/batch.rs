use rcore_os::batch::{
    load_app_image, run_next_app, AppManager, LoadPlan, NextApp, APP_BASE_ADDRESS, APP_SIZE_LIMIT,
};
use rcore_os::trap::TrapContext;

fn three_apps() -> AppManager {
    AppManager::new(&[3, 0x8040_0000, 0x8040_1000, 0x8040_1800, 0x8040_3000])
}

#[test]
fn manager_reads_link_table() {
    let m = three_apps();
    assert_eq!(m.get_current_app(), 0);
    assert_eq!(
        m.app_ranges(),
        vec![(0x8040_0000, 0x8040_1000), (0x8040_1000, 0x8040_1800), (0x8040_1800, 0x8040_3000)]
    );
}

#[test]
fn manager_with_no_apps() {
    let m = AppManager::new(&[0, 0x8040_0000]);
    assert!(m.app_ranges().is_empty());
    assert_eq!(m.load_app(0), LoadPlan::AllCompleted);
}

#[test]
fn load_app_plans_copy_or_reports_completion() {
    let m = three_apps();
    assert_eq!(m.load_app(1), LoadPlan::Copy { src: 0x8040_1000, len: 0x800 });
    assert_eq!(m.load_app(2), LoadPlan::Copy { src: 0x8040_1800, len: 0x1800 });
    assert_eq!(m.load_app(3), LoadPlan::AllCompleted);
}

#[test]
fn move_to_next_app_advances() {
    let mut m = three_apps();
    m.move_to_next_app();
    m.move_to_next_app();
    assert_eq!(m.get_current_app(), 2);
}

#[test]
fn run_next_app_walks_through_all_apps() {
    let mut m = three_apps();
    for expected in 0..3usize {
        match run_next_app(&mut m, 0x9000, 0x100) {
            NextApp::Run { app_id, src, len, context } => {
                assert_eq!(app_id, expected);
                let ranges = three_apps().app_ranges();
                assert_eq!(src, ranges[expected].0);
                assert_eq!(len, ranges[expected].1 - ranges[expected].0);
                assert_eq!(context.sepc, APP_BASE_ADDRESS);
                assert_eq!(context.x[2], 0x9000);
                assert_eq!(context.sstatus & 0x100, 0);
            }
            NextApp::AllCompleted => panic!("application {} missing", expected),
        }
    }
    assert!(matches!(run_next_app(&mut m, 0x9000, 0), NextApp::AllCompleted));
    assert_eq!(m.get_current_app(), 3);
}

#[test]
fn app_image_is_copied_over_cleared_area() {
    let mut area = vec![0xffu8; APP_SIZE_LIMIT];
    load_app_image(&mut area, &[1, 2, 3]);
    assert_eq!(area.len(), APP_SIZE_LIMIT);
    assert_eq!(&area[..3], &[1, 2, 3]);
    assert!(area[3..].iter().all(|&b| b == 0));
}

#[test]
fn empty_image_clears_area() {
    let mut area = vec![7u8; 16];
    load_app_image(&mut area, &[]);
    assert_eq!(area, vec![0u8; 16]);
}

#[test]
fn app_context_starts_in_user_mode() {
    // SPP (bit 8), SPIE (bit 5) and SIE (bit 1) set.
    let cx = TrapContext::app_init_context(0x8040_0000, 0x8020_0000, 0x122);
    assert_eq!(cx.sepc, 0x8040_0000);
    assert_eq!(cx.sstatus, 0x22);
    for (i, r) in cx.x.iter().enumerate() {
        assert_eq!(*r, if i == 2 { 0x8020_0000 } else { 0 });
    }
}

#[test]
fn app_context_keeps_status_bits_outside_the_field_mask() {
    // Bit 0 and bit 20 lie outside riscv's field mask; SPP (bit 8) is set.
    let cx = TrapContext::app_init_context(0, 0, 0x10_0101);
    assert_eq!(cx.sstatus, 0x10_0001);
    let cx = TrapContext::app_init_context(0, 0, usize::MAX);
    assert_eq!(cx.sstatus, usize::MAX & !0x100);
}

#[test]
fn set_sp_writes_x2_only() {
    let mut cx = TrapContext::app_init_context(0, 0, 0);
    cx.set_sp(0x1234);
    assert_eq!(cx.x[2], 0x1234);
    assert_eq!(cx.x[1], 0);
    assert_eq!(cx.sepc, 0);
}
