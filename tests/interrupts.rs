use gale_sys::interrupts::{
    advance_cursor, init_idt, init_test_idt, Cursor, Handler, IdtEntry, InterruptIndex,
    PIC_1_OFFSET, PIC_2_OFFSET,
};

#[test]
fn interrupt_vectors() {
    assert_eq!(PIC_1_OFFSET, 32);
    assert_eq!(PIC_2_OFFSET, 40);
    assert_eq!(InterruptIndex::Timer.as_u8(), 32);
    assert_eq!(InterruptIndex::Keyboard.as_u8(), 33);
}

#[test]
fn kernel_table_layout() {
    let t = init_idt();
    let v: Vec<(u8, Handler, bool)> = t.iter().map(|e| (e.vector, e.handler, e.fault_stack)).collect();
    assert_eq!(
        v,
        vec![
            (3, Handler::Breakpoint, false),
            (8, Handler::DoubleFault, true),
            (14, Handler::PageFault, false),
            (32, Handler::Timer, false),
            (33, Handler::Keyboard, false),
        ]
    );
}

#[test]
fn test_table_layout() {
    let t = init_test_idt();
    assert_eq!(t, vec![IdtEntry { vector: 8, handler: Handler::TestDoubleFault, fault_stack: true }]);
}

#[test]
fn cursor_moves_right() {
    let c = Cursor::start();
    assert_eq!(c, Cursor { col: 20, row: 12 });
    assert_eq!(advance_cursor(c), Cursor { col: 21, row: 12 });
}

#[test]
fn cursor_wraps_line_and_area() {
    assert_eq!(advance_cursor(Cursor { col: 56, row: 12 }), Cursor { col: 21, row: 13 });
    assert_eq!(advance_cursor(Cursor { col: 56, row: 20 }), Cursor { col: 21, row: 12 });
    assert_eq!(advance_cursor(Cursor { col: 30, row: 20 }), Cursor { col: 31, row: 20 });
}
