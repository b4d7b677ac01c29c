//! Interrupt vector numbering, the layout of the interrupt descriptor
//! tables, and where keyboard input is echoed on screen.
use vstd::prelude::*;

verus! {

/// First vector of the primary interrupt controller.
pub const PIC_1_OFFSET: u8 = 32;

/// First vector of the secondary interrupt controller.
pub const PIC_2_OFFSET: u8 = PIC_1_OFFSET + 8;

/// Breakpoint exception vector (`int3`).
pub const BREAKPOINT_VECTOR: u8 = 3;

/// Double fault exception vector.
pub const DOUBLE_FAULT_VECTOR: u8 = 8;

/// Page fault exception vector.
pub const PAGE_FAULT_VECTOR: u8 = 14;

/// Hardware interrupts routed through the primary controller.
#[derive(Debug, Clone, Copy, PartialEq, Eq, Structural)]
pub enum InterruptIndex {
    Timer,
    Keyboard,
}

impl InterruptIndex {
    pub open spec fn vector(self) -> u8 {
        match self {
            InterruptIndex::Timer => PIC_1_OFFSET,
            InterruptIndex::Keyboard => (PIC_1_OFFSET + 1) as u8,
        }
    }

    /// The vector on which this interrupt arrives.
    pub fn as_u8(self) -> (r: u8)
        ensures
            r == self.vector(),
    {
        match self {
            InterruptIndex::Timer => PIC_1_OFFSET,
            InterruptIndex::Keyboard => PIC_1_OFFSET + 1,
        }
    }
}

/// The routine an entry of a descriptor table dispatches to.
#[derive(Debug, Clone, Copy, PartialEq, Eq, Structural)]
pub enum Handler {
    Breakpoint,
    DoubleFault,
    PageFault,
    Timer,
    Keyboard,
    /// The double-fault handler of the stack-overflow check, which reports
    /// success and stops.
    TestDoubleFault,
}

/// One entry of a descriptor table.
#[derive(Debug, Clone, Copy, PartialEq, Eq, Structural)]
pub struct IdtEntry {
    pub vector: u8,
    pub handler: Handler,
    /// The handler runs on the dedicated double-fault stack.
    pub fault_stack: bool,
}

/// The kernel's descriptor table: the three exceptions it handles, then
/// the timer and keyboard interrupts.
pub open spec fn kernel_idt() -> Seq<IdtEntry> {
    seq![
        IdtEntry { vector: BREAKPOINT_VECTOR, handler: Handler::Breakpoint, fault_stack: false },
        IdtEntry { vector: DOUBLE_FAULT_VECTOR, handler: Handler::DoubleFault, fault_stack: true },
        IdtEntry { vector: PAGE_FAULT_VECTOR, handler: Handler::PageFault, fault_stack: false },
        IdtEntry { vector: InterruptIndex::Timer.vector(), handler: Handler::Timer, fault_stack: false },
        IdtEntry {
            vector: InterruptIndex::Keyboard.vector(),
            handler: Handler::Keyboard,
            fault_stack: false,
        },
    ]
}

/// The entries of the kernel's descriptor table, in the order they are
/// installed.
pub fn init_idt() -> (r: Vec<IdtEntry>)
    ensures
        r@ == kernel_idt(),
{
    let mut r: Vec<IdtEntry> = Vec::new();
    r.push(IdtEntry { vector: BREAKPOINT_VECTOR, handler: Handler::Breakpoint, fault_stack: false });
    r.push(IdtEntry { vector: DOUBLE_FAULT_VECTOR, handler: Handler::DoubleFault, fault_stack: true });
    r.push(IdtEntry { vector: PAGE_FAULT_VECTOR, handler: Handler::PageFault, fault_stack: false });
    r.push(IdtEntry { vector: InterruptIndex::Timer.as_u8(), handler: Handler::Timer, fault_stack: false });
    r.push(
        IdtEntry { vector: InterruptIndex::Keyboard.as_u8(), handler: Handler::Keyboard, fault_stack: false },
    );
    assert(r@ =~= kernel_idt());
    r
}

/// The entries of the descriptor table of the stack-overflow check: only
/// its own double-fault handler, on the double-fault stack.
pub fn init_test_idt() -> (r: Vec<IdtEntry>)
    ensures
        r@ == seq![
            IdtEntry {
                vector: DOUBLE_FAULT_VECTOR,
                handler: Handler::TestDoubleFault,
                fault_stack: true,
            },
        ],
{
    let mut r: Vec<IdtEntry> = Vec::new();
    r.push(IdtEntry { vector: DOUBLE_FAULT_VECTOR, handler: Handler::TestDoubleFault, fault_stack: true });
    assert(r@ =~= seq![
        IdtEntry { vector: DOUBLE_FAULT_VECTOR, handler: Handler::TestDoubleFault, fault_stack: true },
    ]);
    r
}

/// First column of the echo area.
pub const ECHO_COL_FIRST: usize = 21;

/// Column past the end of an echo line.
pub const ECHO_COL_END: usize = 57;

/// First row of the echo area.
pub const ECHO_ROW_FIRST: usize = 12;

/// Row past the last echo line.
pub const ECHO_ROW_END: usize = 21;

/// Screen position at which the next typed character is echoed.
#[derive(Debug, Clone, Copy, PartialEq, Eq, Structural)]
pub struct Cursor {
    pub col: usize,
    pub row: usize,
}

impl Cursor {
    pub open spec fn wf(self) -> bool {
        self.col < ECHO_COL_END && self.row < ECHO_ROW_END
    }

    /// The cursor before any key is typed: one column left of the echo
    /// area, on its first row.
    pub fn start() -> (c: Cursor)
        ensures
            c.wf(),
            c.col == ECHO_COL_FIRST - 1,
            c.row == ECHO_ROW_FIRST,
    {
        Cursor { col: ECHO_COL_FIRST - 1, row: ECHO_ROW_FIRST }
    }
}

/// Where the next character goes: one column right; past the end of the
/// line, to the start of the next line; past the last line, back to the
/// start of the first.
pub open spec fn next_cursor(c: Cursor) -> Cursor {
    let col = c.col + 1;
    let (col, row) = if col >= ECHO_COL_END {
        (ECHO_COL_FIRST as int, c.row + 1)
    } else {
        (col, c.row as int)
    };
    if row >= ECHO_ROW_END {
        Cursor { col: ECHO_COL_FIRST, row: ECHO_ROW_FIRST }
    } else {
        Cursor { col: col as usize, row: row as usize }
    }
}

/// Moves the cursor to where a typed character is printed.
pub fn advance_cursor(c: Cursor) -> (r: Cursor)
    requires
        c.wf(),
    ensures
        r == next_cursor(c),
        r.wf(),
{
    let mut col = c.col + 1;
    let mut row = c.row;
    if col >= ECHO_COL_END {
        row += 1;
        col = ECHO_COL_FIRST;
    }
    if row >= ECHO_ROW_END {
        row = ECHO_ROW_FIRST;
        col = ECHO_COL_FIRST;
    }
    Cursor { col, row }
}

} // verus!
