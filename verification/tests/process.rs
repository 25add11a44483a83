use oskit::process::{
    segment_is_loadable,
    elf_entry, plan_segment, standard_stream_modes, user_satp, user_stack_flags, ElfHeaderFields,
    ProgramFields, USER_STACK_TOP, USER_STACK_VPN_END, USER_STACK_VPN_START,
};

#[test]
fn accepts_only_riscv64_executables() {
    let ok = ElfHeaderFields { is_64: true, is_executable: true, is_riscv: true, entry: 0x1000 };
    assert_eq!(elf_entry(&ok), Some(0x1000));
    assert_eq!(elf_entry(&ElfHeaderFields { is_64: false, ..ok }), None);
    assert_eq!(elf_entry(&ElfHeaderFields { is_executable: false, ..ok }), None);
    assert_eq!(elf_entry(&ElfHeaderFields { is_riscv: false, ..ok }), None);
}

#[test]
fn text_segment_planned() {
    let p = ProgramFields { is_load: true, offset: 0x1000, file_size: 0x234, vaddr: 0x10000, mem_size: 0x300, flags: 0x5 };
    let plan = plan_segment(&p, 0x4000).unwrap();
    assert_eq!(plan.mem_start, 0x10000);
    assert_eq!(plan.mem_end, 0x10300);
    assert_eq!(plan.file_offset, 0x1000);
    assert_eq!(plan.file_len, 0x234);
    assert_eq!(plan.page_offset, 0);
    assert_eq!(&plan.flags, b"UX_RV");
}

#[test]
fn data_segment_planned() {
    let p = ProgramFields { is_load: true, offset: 0x2010, file_size: 0x10, vaddr: 0x11010, mem_size: 0x100, flags: 0x6 };
    let plan = plan_segment(&p, 0x4000).unwrap();
    assert_eq!(plan.page_offset, 0x10);
    assert_eq!(plan.mem_end, 0x11110);
    assert_eq!(&plan.flags, b"U_WRV");
}

#[test]
fn non_load_segment_skipped() {
    let p = ProgramFields { is_load: false, offset: 0, file_size: 0, vaddr: 0, mem_size: 0, flags: 0 };
    assert!(plan_segment(&p, 0).is_none());
}

#[test]
fn stack_and_satp() {
    assert_eq!(&user_stack_flags(), b"U_WRV");
    assert_eq!(USER_STACK_VPN_END - USER_STACK_VPN_START, 2);
    assert_eq!(USER_STACK_VPN_END, 1 << 26);
    assert_eq!(USER_STACK_TOP, 1 << 38);
    assert_eq!(user_satp(0x80200), 0x8000_0000_0008_0200);
    assert_eq!(user_satp(0) >> 60, 8);
}

#[test]
fn standard_streams() {
    assert_eq!(standard_stream_modes(), [(true, false), (false, true), (false, true)]);
}

#[test]
fn segment_checks() {
    let good = ProgramFields { is_load: true, offset: 0x1000, file_size: 0x10, vaddr: 0x2000, mem_size: 0x10, flags: 4 };
    assert!(segment_is_loadable(&good, 0x2000));
    assert!(!segment_is_loadable(&good, 0x1008));
    assert!(!segment_is_loadable(&ProgramFields { vaddr: 0x2008, ..good }, 0x2000));
    assert!(!segment_is_loadable(&ProgramFields { vaddr: u64::MAX, ..good }, 0x2000));
}
