//! The `mcause` register: why the machine trapped.
use vstd::prelude::*;

verus! {

/// The bit of `mcause` that marks an interrupt.
pub const INTERRUPT: u64 = 0x8000_0000_0000_0000;

/// The causes of a trap that `mcause` reports.
#[derive(Clone, Copy, Debug, PartialEq, Eq)]
pub enum MCause {
    SupervisorSoftwareInterrupt,
    VirtualSupervisorSoftwareInterrupt,
    MachineSoftwareInterrupt,
    SupervisorTimerInterrupt,
    VirtualSupervisorTimerInterrupt,
    MachineTimerInterrupt,
    SupervisorExternalInterrupt,
    VirtualSupervisorExternalInterrupt,
    MachineExternalInterrupt,
    SupervisorGuestExternalInterrupt,
    InstructionAddrMisaligned,
    InstructionAccessFault,
    IllegalInstruction,
    Breakpoint,
    LoadAddressMisaligned,
    LoadAccessFault,
    StoreAMOAddressMisaligned,
    StoreAMOAccessFault,
    EnvCallUorVU,
    EnvCallHS,
    EnvCallVS,
    EnvCallM,
    InstructionPageFault,
    LoadPageFault,
    StoreAMOPageFault,
    InstructionGuestPageFault,
    LoadGuestPageFault,
    VirtualInstruction,
    StoreAMOGuestPageFault,
}

/// The value of `mcause` that reports a cause.
pub open spec fn cause_code(c: MCause) -> u64 {
    match c {
        MCause::SupervisorSoftwareInterrupt => INTERRUPT | 1,
        MCause::VirtualSupervisorSoftwareInterrupt => INTERRUPT | 2,
        MCause::MachineSoftwareInterrupt => INTERRUPT | 3,
        MCause::SupervisorTimerInterrupt => INTERRUPT | 5,
        MCause::VirtualSupervisorTimerInterrupt => INTERRUPT | 6,
        MCause::MachineTimerInterrupt => INTERRUPT | 7,
        MCause::SupervisorExternalInterrupt => INTERRUPT | 9,
        MCause::VirtualSupervisorExternalInterrupt => INTERRUPT | 10,
        MCause::MachineExternalInterrupt => INTERRUPT | 11,
        MCause::SupervisorGuestExternalInterrupt => INTERRUPT | 12,
        MCause::InstructionAddrMisaligned => 0,
        MCause::InstructionAccessFault => 1,
        MCause::IllegalInstruction => 2,
        MCause::Breakpoint => 3,
        MCause::LoadAddressMisaligned => 4,
        MCause::LoadAccessFault => 5,
        MCause::StoreAMOAddressMisaligned => 6,
        MCause::StoreAMOAccessFault => 7,
        MCause::EnvCallUorVU => 8,
        MCause::EnvCallHS => 9,
        MCause::EnvCallVS => 10,
        MCause::EnvCallM => 11,
        MCause::InstructionPageFault => 12,
        MCause::LoadPageFault => 13,
        MCause::StoreAMOPageFault => 15,
        MCause::InstructionGuestPageFault => 20,
        MCause::LoadGuestPageFault => 21,
        MCause::VirtualInstruction => 22,
        MCause::StoreAMOGuestPageFault => 23,
    }
}

impl MCause {
    /// The cause that a value of `mcause` reports; `None` for a value that reports none
    /// of them.
    pub fn decode(v: u64) -> (r: Option<MCause>)
        ensures
            match r {
                Some(c) => cause_code(c) == v,
                None => forall|c: MCause| #[trigger] cause_code(c) != v,
            },
    {
        proof {
            lemma_interrupt_codes();
        }
        if v == INTERRUPT | 1 {
            Some(MCause::SupervisorSoftwareInterrupt)
        } else if v == INTERRUPT | 2 {
            Some(MCause::VirtualSupervisorSoftwareInterrupt)
        } else if v == INTERRUPT | 3 {
            Some(MCause::MachineSoftwareInterrupt)
        } else if v == INTERRUPT | 5 {
            Some(MCause::SupervisorTimerInterrupt)
        } else if v == INTERRUPT | 6 {
            Some(MCause::VirtualSupervisorTimerInterrupt)
        } else if v == INTERRUPT | 7 {
            Some(MCause::MachineTimerInterrupt)
        } else if v == INTERRUPT | 9 {
            Some(MCause::SupervisorExternalInterrupt)
        } else if v == INTERRUPT | 10 {
            Some(MCause::VirtualSupervisorExternalInterrupt)
        } else if v == INTERRUPT | 11 {
            Some(MCause::MachineExternalInterrupt)
        } else if v == INTERRUPT | 12 {
            Some(MCause::SupervisorGuestExternalInterrupt)
        } else if v == 0 {
            Some(MCause::InstructionAddrMisaligned)
        } else if v == 1 {
            Some(MCause::InstructionAccessFault)
        } else if v == 2 {
            Some(MCause::IllegalInstruction)
        } else if v == 3 {
            Some(MCause::Breakpoint)
        } else if v == 4 {
            Some(MCause::LoadAddressMisaligned)
        } else if v == 5 {
            Some(MCause::LoadAccessFault)
        } else if v == 6 {
            Some(MCause::StoreAMOAddressMisaligned)
        } else if v == 7 {
            Some(MCause::StoreAMOAccessFault)
        } else if v == 8 {
            Some(MCause::EnvCallUorVU)
        } else if v == 9 {
            Some(MCause::EnvCallHS)
        } else if v == 10 {
            Some(MCause::EnvCallVS)
        } else if v == 11 {
            Some(MCause::EnvCallM)
        } else if v == 12 {
            Some(MCause::InstructionPageFault)
        } else if v == 13 {
            Some(MCause::LoadPageFault)
        } else if v == 15 {
            Some(MCause::StoreAMOPageFault)
        } else if v == 20 {
            Some(MCause::InstructionGuestPageFault)
        } else if v == 21 {
            Some(MCause::LoadGuestPageFault)
        } else if v == 22 {
            Some(MCause::VirtualInstruction)
        } else if v == 23 {
            Some(MCause::StoreAMOGuestPageFault)
        } else {
            None
        }
    }

    /// The value of `mcause` that reports this cause.
    pub fn code(&self) -> (r: u64)
        ensures
            r == cause_code(*self),
    {
        match self {
            MCause::SupervisorSoftwareInterrupt => INTERRUPT | 1,
            MCause::VirtualSupervisorSoftwareInterrupt => INTERRUPT | 2,
            MCause::MachineSoftwareInterrupt => INTERRUPT | 3,
            MCause::SupervisorTimerInterrupt => INTERRUPT | 5,
            MCause::VirtualSupervisorTimerInterrupt => INTERRUPT | 6,
            MCause::MachineTimerInterrupt => INTERRUPT | 7,
            MCause::SupervisorExternalInterrupt => INTERRUPT | 9,
            MCause::VirtualSupervisorExternalInterrupt => INTERRUPT | 10,
            MCause::MachineExternalInterrupt => INTERRUPT | 11,
            MCause::SupervisorGuestExternalInterrupt => INTERRUPT | 12,
            MCause::InstructionAddrMisaligned => 0,
            MCause::InstructionAccessFault => 1,
            MCause::IllegalInstruction => 2,
            MCause::Breakpoint => 3,
            MCause::LoadAddressMisaligned => 4,
            MCause::LoadAccessFault => 5,
            MCause::StoreAMOAddressMisaligned => 6,
            MCause::StoreAMOAccessFault => 7,
            MCause::EnvCallUorVU => 8,
            MCause::EnvCallHS => 9,
            MCause::EnvCallVS => 10,
            MCause::EnvCallM => 11,
            MCause::InstructionPageFault => 12,
            MCause::LoadPageFault => 13,
            MCause::StoreAMOPageFault => 15,
            MCause::InstructionGuestPageFault => 20,
            MCause::LoadGuestPageFault => 21,
            MCause::VirtualInstruction => 22,
            MCause::StoreAMOGuestPageFault => 23,
        }
    }
}

proof fn lemma_interrupt_codes()
    ensures
        INTERRUPT | 1 == 0x8000_0000_0000_0001u64,
        INTERRUPT | 2 == 0x8000_0000_0000_0002u64,
        INTERRUPT | 3 == 0x8000_0000_0000_0003u64,
        INTERRUPT | 5 == 0x8000_0000_0000_0005u64,
        INTERRUPT | 6 == 0x8000_0000_0000_0006u64,
        INTERRUPT | 7 == 0x8000_0000_0000_0007u64,
        INTERRUPT | 9 == 0x8000_0000_0000_0009u64,
        INTERRUPT | 10 == 0x8000_0000_0000_000au64,
        INTERRUPT | 11 == 0x8000_0000_0000_000bu64,
        INTERRUPT | 12 == 0x8000_0000_0000_000cu64,
{
    assert(INTERRUPT | 1 == 0x8000_0000_0000_0001u64) by (bit_vector);
    assert(INTERRUPT | 2 == 0x8000_0000_0000_0002u64) by (bit_vector);
    assert(INTERRUPT | 3 == 0x8000_0000_0000_0003u64) by (bit_vector);
    assert(INTERRUPT | 5 == 0x8000_0000_0000_0005u64) by (bit_vector);
    assert(INTERRUPT | 6 == 0x8000_0000_0000_0006u64) by (bit_vector);
    assert(INTERRUPT | 7 == 0x8000_0000_0000_0007u64) by (bit_vector);
    assert(INTERRUPT | 9 == 0x8000_0000_0000_0009u64) by (bit_vector);
    assert(INTERRUPT | 10 == 0x8000_0000_0000_000au64) by (bit_vector);
    assert(INTERRUPT | 11 == 0x8000_0000_0000_000bu64) by (bit_vector);
    assert(INTERRUPT | 12 == 0x8000_0000_0000_000cu64) by (bit_vector);
}

/// No two causes are reported by the same value, so a value reports at most one cause.
pub proof fn lemma_cause_code(c1: MCause, c2: MCause)
    ensures
        cause_code(c1) == cause_code(c2) ==> c1 == c2,
{
    lemma_interrupt_codes();
}

/// The codes of the causes, as the RISC-V privileged architecture numbers them: an
/// interrupt has the top bit set and its number below it, an exception is its number.
pub proof fn lemma_cause_codes()
    ensures
        cause_code(MCause::SupervisorSoftwareInterrupt) == 0x8000_0000_0000_0001u64,
        cause_code(MCause::VirtualSupervisorSoftwareInterrupt) == 0x8000_0000_0000_0002u64,
        cause_code(MCause::MachineSoftwareInterrupt) == 0x8000_0000_0000_0003u64,
        cause_code(MCause::SupervisorTimerInterrupt) == 0x8000_0000_0000_0005u64,
        cause_code(MCause::VirtualSupervisorTimerInterrupt) == 0x8000_0000_0000_0006u64,
        cause_code(MCause::MachineTimerInterrupt) == 0x8000_0000_0000_0007u64,
        cause_code(MCause::SupervisorExternalInterrupt) == 0x8000_0000_0000_0009u64,
        cause_code(MCause::VirtualSupervisorExternalInterrupt) == 0x8000_0000_0000_000au64,
        cause_code(MCause::MachineExternalInterrupt) == 0x8000_0000_0000_000bu64,
        cause_code(MCause::SupervisorGuestExternalInterrupt) == 0x8000_0000_0000_000cu64,
        cause_code(MCause::InstructionAddrMisaligned) == 0,
        cause_code(MCause::InstructionAccessFault) == 1,
        cause_code(MCause::IllegalInstruction) == 2,
        cause_code(MCause::Breakpoint) == 3,
        cause_code(MCause::LoadAddressMisaligned) == 4,
        cause_code(MCause::LoadAccessFault) == 5,
        cause_code(MCause::StoreAMOAddressMisaligned) == 6,
        cause_code(MCause::StoreAMOAccessFault) == 7,
        cause_code(MCause::EnvCallUorVU) == 8,
        cause_code(MCause::EnvCallHS) == 9,
        cause_code(MCause::EnvCallVS) == 10,
        cause_code(MCause::EnvCallM) == 11,
        cause_code(MCause::InstructionPageFault) == 12,
        cause_code(MCause::LoadPageFault) == 13,
        cause_code(MCause::StoreAMOPageFault) == 15,
        cause_code(MCause::InstructionGuestPageFault) == 20,
        cause_code(MCause::LoadGuestPageFault) == 21,
        cause_code(MCause::VirtualInstruction) == 22,
        cause_code(MCause::StoreAMOGuestPageFault) == 23,
{
    lemma_interrupt_codes();
}

} // verus!
