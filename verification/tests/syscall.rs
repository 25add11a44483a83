use oskit::syscall::{
    after_trap, check_openat_path, path_is_utf8, plan_syscall, writev_next, WritevStep, SyscallPlan, TrapAction, TrapEvent,
    align_up_4k, check_arch_prctl, check_mmap_args, check_openat_args, close_fd, open_request,
    read_route, syscall_kind, vfs_to_linux, write_route, writev_accumulate, writev_count,
    writev_skips, Errno, FdTable, FsError, IoRoute, MapFlags, OpenRequest, SyscallKind, ARCH_SET_FS,
    AT_FDCWD, MAP_ANONYMOUS, MAP_FIXED, MAP_PRIVATE, MAP_SHARED, O_APPEND, O_CREAT, O_EXCL, O_RDWR,
    O_TRUNC, O_WRONLY, PROT_EXEC, PROT_READ, PROT_WRITE,
};

#[test]
fn syscall_numbers_by_arch() {
    assert_eq!(syscall_kind(true, 0), SyscallKind::Read);
    assert_eq!(syscall_kind(true, 1), SyscallKind::Write);
    assert_eq!(syscall_kind(true, 257), SyscallKind::Openat);
    assert_eq!(syscall_kind(true, 158), SyscallKind::ArchPrctl);
    assert_eq!(syscall_kind(true, 231), SyscallKind::ExitGroup);
    assert_eq!(syscall_kind(false, 63), SyscallKind::Read);
    assert_eq!(syscall_kind(false, 64), SyscallKind::Write);
    assert_eq!(syscall_kind(false, 222), SyscallKind::Mmap);
    assert_eq!(syscall_kind(false, 93), SyscallKind::Exit);
    assert_eq!(syscall_kind(false, 158), SyscallKind::Unknown);
    assert_eq!(syscall_kind(false, 0), SyscallKind::Unknown);
    assert_eq!(syscall_kind(true, 63), SyscallKind::Unknown);
}

#[test]
fn open_flags_decoded() {
    assert_eq!(
        open_request(0),
        OpenRequest { read: true, write: false, append: false, create: false, truncate: false, create_new: false }
    );
    assert_eq!(
        open_request(O_WRONLY | O_CREAT | O_TRUNC),
        OpenRequest { read: false, write: true, append: false, create: true, truncate: true, create_new: false }
    );
    assert_eq!(
        open_request(O_RDWR | O_CREAT | O_EXCL | O_APPEND),
        OpenRequest { read: true, write: true, append: true, create: true, truncate: false, create_new: true }
    );
    // exclusive without create is not exclusive creation
    assert!(!open_request(O_EXCL).create_new);
    // access mode 3 grants neither
    let both = open_request(3);
    assert!(!both.read && !both.write);
}

#[test]
fn openat_args() {
    assert_eq!(check_openat_args(AT_FDCWD, false), Ok(()));
    assert_eq!(check_openat_args(AT_FDCWD, true), Err(Errno::EINVAL));
    assert_eq!(check_openat_args(3, false), Err(Errno::EINVAL));
}

#[test]
fn descriptor_table_reuses_lowest() {
    let mut t: FdTable<&str> = FdTable::new();
    assert_eq!(t.alloc_fd("a"), 3);
    assert_eq!(t.alloc_fd("b"), 4);
    assert_eq!(t.alloc_fd("c"), 5);
    assert_eq!(t.get_fd(4), Some(&"b"));
    assert_eq!(t.take_fd(4), Some("b"));
    assert_eq!(t.get_fd(4), None);
    assert_eq!(t.alloc_fd("d"), 4);
    assert_eq!(t.get_fd(4), Some(&"d"));
    assert_eq!(t.get_fd(2), None);
    assert_eq!(t.get_fd(-1), None);
    assert_eq!(t.get_fd(9), None);
    assert_eq!(t.take_fd(9), None);
    t.clear();
    assert_eq!(t.get_fd(3), None);
    assert_eq!(t.alloc_fd("e"), 3);
}

#[test]
fn close_descriptors() {
    let mut t: FdTable<u32> = FdTable::new();
    let fd = t.alloc_fd(7) as i32;
    assert_eq!(close_fd(&mut t, 1), Ok(()));
    assert_eq!(close_fd(&mut t, fd), Ok(()));
    assert_eq!(close_fd(&mut t, fd), Err(Errno::EBADF));
    assert_eq!(close_fd(&mut t, 40), Err(Errno::EBADF));
}

#[test]
fn read_and_write_routes() {
    let mut t: FdTable<u32> = FdTable::new();
    let fd = t.alloc_fd(1) as i32;
    assert_eq!(read_route(&t, fd, false, 0), IoRoute::Done(0));
    assert_eq!(read_route(&t, fd, true, 8), IoRoute::Fail(Errno::EFAULT));
    assert_eq!(read_route(&t, 0, false, 8), IoRoute::Done(0));
    assert_eq!(read_route(&t, fd, false, 8), IoRoute::File);
    assert_eq!(read_route(&t, fd + 1, false, 8), IoRoute::Fail(Errno::EBADF));
    assert_eq!(write_route(&t, 1, false, 8), IoRoute::Console);
    assert_eq!(write_route(&t, 2, false, 8), IoRoute::Console);
    assert_eq!(write_route(&t, 0, false, 8), IoRoute::Fail(Errno::EBADF));
    assert_eq!(write_route(&t, fd, false, 8), IoRoute::File);
    assert_eq!(write_route(&t, fd, true, 8), IoRoute::Fail(Errno::EFAULT));
    assert_eq!(write_route(&t, fd, true, 0), IoRoute::Done(0));
}

#[test]
fn writev_folding() {
    assert_eq!(writev_count(-1), Err(Errno::EINVAL));
    assert_eq!(writev_count(2), Ok(2));
    assert!(writev_skips(0, 5));
    assert!(writev_skips(0x1000, 0));
    assert!(!writev_skips(0x1000, 5));
    assert_eq!(writev_accumulate(0, 5), Ok(5));
    assert_eq!(writev_accumulate(5, 3), Ok(8));
    assert_eq!(writev_accumulate(0, -9), Err(-9));
    assert_eq!(writev_accumulate(8, -9), Err(8));
}

#[test]
fn page_rounding() {
    assert_eq!(align_up_4k(0), 0);
    assert_eq!(align_up_4k(1), 4096);
    assert_eq!(align_up_4k(4096), 4096);
    assert_eq!(align_up_4k(4097), 8192);
}

#[test]
fn mmap_argument_checks() {
    let rw = MapFlags { read: true, write: true, execute: false, user: true };
    assert_eq!(check_mmap_args(true, 100, PROT_READ | PROT_WRITE, MAP_PRIVATE, 0), Ok(rw));
    assert_eq!(
        check_mmap_args(true, 100, PROT_READ | PROT_EXEC | 0x100, MAP_SHARED, 4096),
        Ok(MapFlags { read: true, write: false, execute: true, user: true })
    );
    assert_eq!(check_mmap_args(true, 0, PROT_READ, MAP_PRIVATE, 0), Err(Errno::EINVAL));
    assert_eq!(check_mmap_args(true, 100, PROT_READ, MAP_PRIVATE, -4096), Err(Errno::EINVAL));
    assert_eq!(check_mmap_args(true, 100, PROT_READ, MAP_PRIVATE, 100), Err(Errno::EINVAL));
    assert_eq!(check_mmap_args(true, 100, PROT_READ, MAP_PRIVATE | 0x8, 0), Err(Errno::EINVAL));
    assert_eq!(check_mmap_args(true, 100, PROT_READ, MAP_PRIVATE | MAP_FIXED, 0), Err(Errno::ENOSYS));
    assert_eq!(check_mmap_args(true, 100, PROT_READ, MAP_SHARED | MAP_ANONYMOUS, 0), Err(Errno::ENOSYS));
    assert_eq!(check_mmap_args(true, 100, PROT_READ, 0, 0), Err(Errno::EINVAL));
    assert_eq!(check_mmap_args(false, 100, PROT_READ, MAP_PRIVATE, 0), Err(Errno::ENOSYS));
    assert_eq!(check_mmap_args(true, 100, PROT_WRITE, MAP_PRIVATE, 0), Err(Errno::EINVAL));
}

#[test]
fn arch_prctl_ops() {
    assert_eq!(check_arch_prctl(ARCH_SET_FS), Ok(()));
    assert_eq!(check_arch_prctl(0x1001), Err(Errno::EINVAL));
}

#[test]
fn file_system_errors_mapped() {
    assert_eq!(vfs_to_linux(FsError::AlreadyExists), Errno::EEXIST);
    assert_eq!(vfs_to_linux(FsError::BadAddress), Errno::EFAULT);
    assert_eq!(vfs_to_linux(FsError::BadFileDescriptor), Errno::EBADF);
    assert_eq!(vfs_to_linux(FsError::CrossesDevices), Errno::EXDEV);
    assert_eq!(vfs_to_linux(FsError::DirectoryNotEmpty), Errno::ENOTEMPTY);
    assert_eq!(vfs_to_linux(FsError::InvalidData), Errno::EINVAL);
    assert_eq!(vfs_to_linux(FsError::InvalidInput), Errno::EINVAL);
    assert_eq!(vfs_to_linux(FsError::IsADirectory), Errno::EISDIR);
    assert_eq!(vfs_to_linux(FsError::NoMemory), Errno::ENOMEM);
    assert_eq!(vfs_to_linux(FsError::NotADirectory), Errno::ENOTDIR);
    assert_eq!(vfs_to_linux(FsError::NotFound), Errno::ENOENT);
    assert_eq!(vfs_to_linux(FsError::PermissionDenied), Errno::EACCES);
    assert_eq!(vfs_to_linux(FsError::ReadOnlyFilesystem), Errno::EROFS);
    assert_eq!(vfs_to_linux(FsError::ResourceBusy), Errno::EBUSY);
    assert_eq!(vfs_to_linux(FsError::StorageFull), Errno::ENOSPC);
    assert_eq!(vfs_to_linux(FsError::Unsupported), Errno::ENOSYS);
    assert_eq!(vfs_to_linux(FsError::Io), Errno::EIO);
    assert_eq!(vfs_to_linux(FsError::TimedOut), Errno::EIO);
    assert_eq!(vfs_to_linux(FsError::WouldBlock), Errno::EIO);
}

#[test]
fn trap_loop_decisions() {
    assert_eq!(after_trap(TrapEvent::Syscall(None)), TrapAction::Resume);
    assert_eq!(after_trap(TrapEvent::Syscall(Some(3))), TrapAction::Exit(3));
    assert_eq!(after_trap(TrapEvent::Interrupt), TrapAction::Resume);
    assert_eq!(after_trap(TrapEvent::Other), TrapAction::Exit(-1));
}

#[test]
fn page_faults_resume_when_resolved() {
    assert_eq!(after_trap(TrapEvent::PageFault(true)), TrapAction::Resume);
    assert_eq!(after_trap(TrapEvent::PageFault(false)), TrapAction::Exit(-1));
}

#[test]
fn dispatch_outcomes() {
    assert_eq!(plan_syscall(SyscallKind::Ioctl, 7), SyscallPlan::Return(0));
    assert_eq!(plan_syscall(SyscallKind::SetTidAddress, 0x1000), SyscallPlan::TaskId);
    assert_eq!(plan_syscall(SyscallKind::Exit, 3), SyscallPlan::Exit(3));
    assert_eq!(plan_syscall(SyscallKind::ExitGroup, 0), SyscallPlan::Exit(0));
    assert_eq!(plan_syscall(SyscallKind::ExitGroup, 0x1_0000_0005), SyscallPlan::Exit(5));
    assert_eq!(plan_syscall(SyscallKind::Exit, usize::MAX), SyscallPlan::Exit(-1));
    assert_eq!(plan_syscall(SyscallKind::Unknown, 0), SyscallPlan::Fail(Errno::ENOSYS));
    for kind in [
        SyscallKind::Openat,
        SyscallKind::Close,
        SyscallKind::Read,
        SyscallKind::Write,
        SyscallKind::Writev,
        SyscallKind::Mmap,
        SyscallKind::ArchPrctl,
    ] {
        assert_eq!(plan_syscall(kind, 1), SyscallPlan::Perform);
    }
    assert_eq!(plan_syscall(syscall_kind(true, 60), 2), SyscallPlan::Exit(2));
    assert_eq!(plan_syscall(syscall_kind(false, 1234), 2), SyscallPlan::Fail(Errno::ENOSYS));
}

#[test]
fn descriptor_taken_back_is_reused() {
    let mut t: FdTable<u32> = FdTable::new();
    assert_eq!(t.alloc_fd(10), 3);
    let fd = t.alloc_fd(11);
    assert_eq!(fd, 4);
    assert_eq!(t.alloc_fd(12), 5);
    assert_eq!(t.get_fd(fd as i32), Some(&11));
    assert_eq!(t.take_fd(fd as i32), Some(11));
    assert_eq!(t.get_fd(fd as i32), None);
    assert_eq!(t.take_fd(fd as i32), None);
    assert_eq!(t.get_fd(3), Some(&10));
    assert_eq!(t.get_fd(5), Some(&12));
    assert_eq!(t.alloc_fd(13), fd);
}

#[test]
fn openat_path_must_be_utf8() {
    assert_eq!(check_openat_path(AT_FDCWD, Some(b"/bin/hello".as_slice())), Ok(()));
    assert_eq!(check_openat_path(AT_FDCWD, Some("/tmp/caf\u{e9}".as_bytes())), Ok(()));
    assert_eq!(check_openat_path(AT_FDCWD, Some(b"".as_slice())), Ok(()));
    assert_eq!(check_openat_path(AT_FDCWD, Some(b"/tmp/\xff".as_slice())), Err(Errno::EINVAL));
    assert_eq!(check_openat_path(AT_FDCWD, None), Err(Errno::EINVAL));
    assert_eq!(check_openat_path(3, Some(b"/bin/hello".as_slice())), Err(Errno::EINVAL));
}

#[test]
fn utf8_paths() {
    for ok in ["", "abc", "\u{7ff}", "\u{800}", "\u{ffff}", "\u{10000}", "\u{10ffff}", "ok \u{1f600}"] {
        assert!(path_is_utf8(ok.as_bytes()), "{:?}", ok);
        assert_eq!(path_is_utf8(ok.as_bytes()), std::str::from_utf8(ok.as_bytes()).is_ok());
    }
    let bad: [&[u8]; 9] = [
        b"\x80",
        b"\xc0\x80",
        b"\xc1\xbf",
        b"\xe0\x80\x80",
        b"\xed\xa0\x80",
        b"\xf0\x80\x80\x80",
        b"\xf4\x90\x80\x80",
        b"\xf8\x88\x80\x80\x80",
        b"ab\xe2\x82",
    ];
    for b in bad {
        assert!(!path_is_utf8(b), "{:?}", b);
        assert!(std::str::from_utf8(b).is_err());
    }
}

#[test]
fn writev_driver_steps() {
    let entries = [(0x1000usize, 3usize), (0, 5), (0x2000, 0), (0x3000, 4)];
    assert_eq!(writev_next(&entries, &[]), WritevStep::Write(0));
    assert_eq!(writev_next(&entries, &[3]), WritevStep::Write(3));
    assert_eq!(writev_next(&entries, &[3, 4]), WritevStep::Finish(7));
    assert_eq!(writev_next(&entries, &[3, -9]), WritevStep::Finish(3));
    assert_eq!(writev_next(&entries, &[-9]), WritevStep::Finish(-9));
    assert_eq!(writev_next(&entries, &[0, -9]), WritevStep::Finish(-9));
    assert_eq!(writev_next(&[], &[]), WritevStep::Finish(0));
    assert_eq!(writev_next(&[(0, 5), (7, 0)], &[]), WritevStep::Finish(0));
}
