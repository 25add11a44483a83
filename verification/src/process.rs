//! Planning the memory image of a process created from an ELF program for
//! the Sv39 RISC-V machine: which header is accepted, where each loadable
//! segment goes and with which rights, where the user stack lies, and the
//! `satp` value that selects the new address space.

use vstd::prelude::*;

verus! {

/// Bits of a page offset.
pub const PAGE_BITS: usize = 12;
/// The low bits of an address that lie inside a page.
pub const PAGE_MASK: usize = 0xfff;
/// Program-header flag: the segment is executable.
pub const FLAG_X: u32 = 0x1;
/// Program-header flag: the segment is writable.
pub const FLAG_W: u32 = 0x2;
/// Program-header flag: the segment is readable.
pub const FLAG_R: u32 = 0x4;
/// First virtual page of the two-page user stack.
pub const USER_STACK_VPN_START: usize = 0x3ff_fffe;
/// Virtual page just past the user stack.
pub const USER_STACK_VPN_END: usize = 0x400_0000;
/// Initial user stack pointer: the top of the user stack.
pub const USER_STACK_TOP: u64 = 0x40_0000_0000;
/// The `satp` mode field for Sv39 paging.
pub const SATP_MODE_SV39: u64 = 0x8000_0000_0000_0000;

/// What the loader reads of an ELF file header.
#[derive(Clone, Copy, Debug, PartialEq, Eq, Structural)]
pub struct ElfHeaderFields {
    /// The file uses the 64-bit header layout.
    pub is_64: bool,
    /// The file is an executable.
    pub is_executable: bool,
    /// The file is built for RISC-V.
    pub is_riscv: bool,
    /// The entry address.
    pub entry: u64,
}

/// What the loader reads of a program header.
#[derive(Clone, Copy, Debug, PartialEq, Eq, Structural)]
pub struct ProgramFields {
    /// The segment is to be loaded.
    pub is_load: bool,
    /// Where the segment's bytes start in the file.
    pub offset: u64,
    /// How many of the segment's bytes are in the file.
    pub file_size: u64,
    /// The segment's virtual address.
    pub vaddr: u64,
    /// The segment's size in memory.
    pub mem_size: u64,
    /// Execute, write and read flags.
    pub flags: u32,
}

/// Where one loadable segment goes.
#[derive(Clone, Copy, Debug)]
pub struct SegmentPlan {
    /// Virtual address range `[mem_start, mem_end)` of the segment.
    pub mem_start: usize,
    pub mem_end: usize,
    /// The bytes `[file_offset, file_offset + file_len)` of the file fill its start.
    pub file_offset: usize,
    pub file_len: usize,
    /// Offset of the segment's start inside its first page.
    pub page_offset: usize,
    /// Page rights as `U`, `X`, `W`, `R`, `V` letters, `_` for a missing right.
    pub flags: [u8; 5],
}

/// The entry address of an accepted ELF file; see [`elf_entry`].
pub open spec fn elf_entry_of(header: ElfHeaderFields) -> Option<usize> {
    if header.is_64 && header.is_executable && header.is_riscv {
        Some(header.entry as usize)
    } else {
        None::<usize>
    }
}

/// The loader accepts a file exactly when it is a 64-bit RISC-V executable
/// (missing any one of the three refuses it), and then starts it at the
/// entry address of its header.
pub proof fn lemma_elf_acceptance(header: ElfHeaderFields)
    ensures
        (elf_entry_of(header) is Some) == (header.is_64 && header.is_executable && header.is_riscv),
        elf_entry_of(header) is Some ==> elf_entry_of(header) == Some(header.entry as usize),
        !header.is_64 || !header.is_executable || !header.is_riscv ==> elf_entry_of(header) is None,
{
}

/// A segment is loadable for a file of `input_len` bytes exactly when its
/// memory range does not wrap around the address space, its file bytes
/// `[offset, offset + file_size)` lie inside the file, and it starts at the
/// same place within a 4 KiB page in the file and in memory; the plan's
/// page offset is then the segment's address modulo 4 KiB.
pub proof fn lemma_segment_placement(p: ProgramFields, input_len: usize)
    ensures
        segment_loadable(p, input_len) == ((p.vaddr as usize) + (p.mem_size as usize) <= usize::MAX
            && (p.offset as usize) + (p.file_size as usize) <= input_len && (p.offset as usize) % 4096
            == (p.vaddr as usize) % 4096),
        (p.vaddr as usize) & PAGE_MASK == (p.vaddr as usize) % 4096,
{
    let o = p.offset as usize;
    let v = p.vaddr as usize;
    assert(o & 0xfff == o % 4096) by (bit_vector);
    assert(v & 0xfff == v % 4096) by (bit_vector);
}

/// The entry address of an ELF file the loader accepts: a 64-bit RISC-V
/// executable; none for any other file.
pub fn elf_entry(header: &ElfHeaderFields) -> (r: Option<usize>)
    ensures
        r == elf_entry_of(*header),
{
    if header.is_64 && header.is_executable && header.is_riscv {
        Some(header.entry as usize)
    } else {
        None
    }
}

/// The page-right letters of a segment with program flags `flags`: always
/// user-accessible (`U`) and valid (`V`), with `X`, `W`, `R` for the
/// execute, write and read flags.
pub open spec fn segment_flags_of(flags: u32) -> Seq<u8> {
    seq![
        0x55u8,
        if flags & FLAG_X == FLAG_X { 0x58u8 } else { 0x5fu8 },
        if flags & FLAG_W == FLAG_W { 0x57u8 } else { 0x5fu8 },
        if flags & FLAG_R == FLAG_R { 0x52u8 } else { 0x5fu8 },
        0x56u8,
    ]
}

/// The page rights of a segment follow its program flags letter by letter:
/// `U` first and `V` last always; `X` exactly when the execute bit (0x1) is
/// set, `W` exactly when the write bit (0x2) is set, `R` exactly when the
/// read bit (0x4) is set, `_` otherwise; each letter depends on its own bit
/// only.
pub proof fn lemma_segment_rights(flags: u32)
    ensures
        segment_flags_of(flags).len() == 5,
        segment_flags_of(flags)[0] == 0x55u8,
        segment_flags_of(flags)[1] == if flags & 0x1 != 0 { 0x58u8 } else { 0x5fu8 },
        segment_flags_of(flags)[2] == if flags & 0x2 != 0 { 0x57u8 } else { 0x5fu8 },
        segment_flags_of(flags)[3] == if flags & 0x4 != 0 { 0x52u8 } else { 0x5fu8 },
        segment_flags_of(flags)[4] == 0x56u8,
{
    assert((flags & 0x1 == 0x1) == (flags & 0x1 != 0)) by (bit_vector);
    assert((flags & 0x2 == 0x2) == (flags & 0x2 != 0)) by (bit_vector);
    assert((flags & 0x4 == 0x4) == (flags & 0x4 != 0)) by (bit_vector);
}

/// Whether a loadable segment is well formed for a file of `input_len`
/// bytes: its memory end fits in an address, its file bytes lie inside the
/// file, and it starts at the same offset within a page in the file and in
/// memory.
pub open spec fn segment_loadable(p: ProgramFields, input_len: usize) -> bool {
    &&& (p.vaddr as usize) + (p.mem_size as usize) <= usize::MAX
    &&& (p.offset as usize) <= input_len
    &&& (p.file_size as usize) <= input_len - (p.offset as usize)
    &&& (p.offset as usize) & PAGE_MASK == (p.vaddr as usize) & PAGE_MASK
}

/// Whether a loadable segment is well formed for a file of `input_len`
/// bytes (see [`segment_loadable`]).
pub fn segment_is_loadable(p: &ProgramFields, input_len: usize) -> (r: bool)
    ensures
        r == segment_loadable(*p, input_len),
{
    let off_file = p.offset as usize;
    let len_file = p.file_size as usize;
    let off_mem = p.vaddr as usize;
    let size_mem = p.mem_size as usize;
    off_mem <= usize::MAX - size_mem && off_file <= input_len && len_file <= input_len - off_file
        && off_file & PAGE_MASK == off_mem & PAGE_MASK
}

/// Plans one program segment of a file of `input_len` bytes: segments
/// that are not to be loaded are skipped (`None`).
pub fn plan_segment(p: &ProgramFields, input_len: usize) -> (r: Option<SegmentPlan>)
    requires
        p.is_load ==> segment_loadable(*p, input_len),
    ensures
        !p.is_load ==> r is None,
        p.is_load ==> (r matches Some(plan) && plan.mem_start == p.vaddr as usize && plan.mem_end == (
        p.vaddr as usize) + (p.mem_size as usize) && plan.file_offset == p.offset as usize
            && plan.file_len == p.file_size as usize && plan.page_offset == (p.vaddr as usize)
            & PAGE_MASK && plan.flags@ == segment_flags_of(p.flags)),
{
    if !p.is_load {
        return None;
    }
    let off_file = p.offset as usize;
    let len_file = p.file_size as usize;
    let off_mem = p.vaddr as usize;
    let end_mem = off_mem + p.mem_size as usize;
    let mut flags: [u8; 5] = [0x55u8, 0x5fu8, 0x5fu8, 0x5fu8, 0x56u8];
    if p.flags & FLAG_X == FLAG_X {
        flags[1] = 0x58u8;
    }
    if p.flags & FLAG_W == FLAG_W {
        flags[2] = 0x57u8;
    }
    if p.flags & FLAG_R == FLAG_R {
        flags[3] = 0x52u8;
    }
    assert(flags@ =~= segment_flags_of(p.flags));
    Some(
        SegmentPlan {
            mem_start: off_mem,
            mem_end: end_mem,
            file_offset: off_file,
            file_len: len_file,
            page_offset: off_mem & PAGE_MASK,
            flags,
        },
    )
}

/// The page-right letters of the user stack: user, writable, readable, valid.
pub fn user_stack_flags() -> (r: [u8; 5])
    ensures
        r@ == seq![0x55u8, 0x5fu8, 0x57u8, 0x52u8, 0x56u8],
{
    let r: [u8; 5] = [0x55u8, 0x5fu8, 0x57u8, 0x52u8, 0x56u8];
    assert(r@ =~= seq![0x55u8, 0x5fu8, 0x57u8, 0x52u8, 0x56u8]);
    r
}

/// The `satp` value selecting Sv39 paging with the page table rooted at
/// physical page `root_ppn`.
pub fn user_satp(root_ppn: u64) -> (r: u64)
    ensures
        r == SATP_MODE_SV39 | root_ppn,
        root_ppn < 0x1000_0000_0000_0000 ==> r >> 60u64 == 8 && r & 0x0fff_ffff_ffff_ffff == root_ppn,
{
    let r = (8u64 << 60u64) | root_ppn;
    assert(8u64 << 60u64 == 0x8000_0000_0000_0000u64) by (bit_vector);
    assert(root_ppn < 0x1000_0000_0000_0000 ==> (0x8000_0000_0000_0000u64 | root_ppn) >> 60u64 == 8
        && (0x8000_0000_0000_0000u64 | root_ppn) & 0x0fff_ffff_ffff_ffff == root_ppn) by (bit_vector);
    r
}

/// The read and write modes of the standard streams a new process starts
/// with: standard input reads, standard output and error write.
pub fn standard_stream_modes() -> (r: [(bool, bool); 3])
    ensures
        r@ == seq![(true, false), (false, true), (false, true)],
{
    let r: [(bool, bool); 3] = [(true, false), (false, true), (false, true)];
    assert(r@ =~= seq![(true, false), (false, true), (false, true)]);
    r
}

} // verus!
