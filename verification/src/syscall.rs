//! The decisions of a minimal Linux system-call layer: which call a number
//! names, how open flags and mmap arguments are read and checked, which
//! descriptor a file gets, and which Linux error a file-system error becomes.
//! Performing the calls (files, consoles, address spaces) is left to the
//! caller.

use vstd::prelude::*;
use vstd::utf8::{
    length_of_first_scalar, partial_valid_partial_invalid_utf8, partial_valid_utf8,
    partial_valid_utf8_extend, valid_first_scalar, valid_utf8,
};

verus! {

/// Linux error numbers that the system-call layer reports.
#[allow(non_camel_case_types)]
#[derive(Clone, Copy, Debug, PartialEq, Eq, Structural)]
pub enum Errno {
    ENOENT,
    EIO,
    EBADF,
    ENOMEM,
    EACCES,
    EFAULT,
    EBUSY,
    EEXIST,
    EXDEV,
    ENOTDIR,
    EISDIR,
    EINVAL,
    ENOSPC,
    EROFS,
    ENOSYS,
    ENOTEMPTY,
}

/// Errors of the virtual file system.
#[derive(Clone, Copy, Debug, PartialEq, Eq, Structural)]
pub enum FsError {
    AlreadyExists,
    BadAddress,
    BadFileDescriptor,
    BadState,
    CrossesDevices,
    DataMissing,
    DirectoryNotEmpty,
    FilesystemCorrupted,
    FilesystemLoop,
    FileTooLarge,
    InvalidData,
    InvalidInput,
    Interrupted,
    Io,
    IsADirectory,
    NameTooLong,
    NoMemory,
    NoSuchDevice,
    NoSuchDeviceOrAddress,
    NotADirectory,
    NotATty,
    NotFound,
    OperationNotPermitted,
    OperationNotSupported,
    PermissionDenied,
    QuotaExceeded,
    ReadOnlyFilesystem,
    ResourceBusy,
    StorageFull,
    TextFileBusy,
    TimedOut,
    TooManyLinks,
    Unsupported,
    WouldBlock,
    ValueOverflow,
}

/// The Linux error a file-system error is reported as; errors without a
/// closer match are reported as I/O errors.
pub open spec fn fs_error_errno(err: FsError) -> Errno {
    match err {
        FsError::AlreadyExists => Errno::EEXIST,
        FsError::BadAddress => Errno::EFAULT,
        FsError::BadFileDescriptor => Errno::EBADF,
        FsError::CrossesDevices => Errno::EXDEV,
        FsError::DirectoryNotEmpty => Errno::ENOTEMPTY,
        FsError::InvalidData => Errno::EINVAL,
        FsError::InvalidInput => Errno::EINVAL,
        FsError::IsADirectory => Errno::EISDIR,
        FsError::NoMemory => Errno::ENOMEM,
        FsError::NotADirectory => Errno::ENOTDIR,
        FsError::NotFound => Errno::ENOENT,
        FsError::PermissionDenied => Errno::EACCES,
        FsError::ReadOnlyFilesystem => Errno::EROFS,
        FsError::ResourceBusy => Errno::EBUSY,
        FsError::StorageFull => Errno::ENOSPC,
        FsError::Unsupported => Errno::ENOSYS,
        _ => Errno::EIO,
    }
}

/// The Linux error for a file-system error.
pub fn vfs_to_linux(err: FsError) -> (r: Errno)
    ensures
        r == fs_error_errno(err),
{
    match err {
        FsError::AlreadyExists => Errno::EEXIST,
        FsError::BadAddress => Errno::EFAULT,
        FsError::BadFileDescriptor => Errno::EBADF,
        FsError::CrossesDevices => Errno::EXDEV,
        FsError::DirectoryNotEmpty => Errno::ENOTEMPTY,
        FsError::InvalidData => Errno::EINVAL,
        FsError::InvalidInput => Errno::EINVAL,
        FsError::IsADirectory => Errno::EISDIR,
        FsError::NoMemory => Errno::ENOMEM,
        FsError::NotADirectory => Errno::ENOTDIR,
        FsError::NotFound => Errno::ENOENT,
        FsError::PermissionDenied => Errno::EACCES,
        FsError::ReadOnlyFilesystem => Errno::EROFS,
        FsError::ResourceBusy => Errno::EBUSY,
        FsError::StorageFull => Errno::ENOSPC,
        FsError::Unsupported => Errno::ENOSYS,
        _ => Errno::EIO,
    }
}

/// Each Linux error that a file-system error becomes comes from exactly the
/// file-system errors of the same meaning: an existing entry is `EEXIST`, a
/// bad address `EFAULT`, a bad descriptor `EBADF`, a link across devices
/// `EXDEV`, a non-empty directory `ENOTEMPTY`, invalid data or input
/// `EINVAL`, a directory where a file was expected `EISDIR`, no memory
/// `ENOMEM`, a file where a directory was expected `ENOTDIR`, a missing
/// entry `ENOENT`, a denied permission `EACCES`, a read-only file system
/// `EROFS`, a busy resource `EBUSY`, a full device `ENOSPC`, an unsupported
/// operation `ENOSYS`; every other file-system error is `EIO`.
pub proof fn lemma_fs_error_meanings(e: FsError)
    ensures
        (fs_error_errno(e) == Errno::EEXIST) == (e == FsError::AlreadyExists),
        (fs_error_errno(e) == Errno::EFAULT) == (e == FsError::BadAddress),
        (fs_error_errno(e) == Errno::EBADF) == (e == FsError::BadFileDescriptor),
        (fs_error_errno(e) == Errno::EXDEV) == (e == FsError::CrossesDevices),
        (fs_error_errno(e) == Errno::ENOTEMPTY) == (e == FsError::DirectoryNotEmpty),
        (fs_error_errno(e) == Errno::EINVAL) == (e == FsError::InvalidData || e
            == FsError::InvalidInput),
        (fs_error_errno(e) == Errno::EISDIR) == (e == FsError::IsADirectory),
        (fs_error_errno(e) == Errno::ENOMEM) == (e == FsError::NoMemory),
        (fs_error_errno(e) == Errno::ENOTDIR) == (e == FsError::NotADirectory),
        (fs_error_errno(e) == Errno::ENOENT) == (e == FsError::NotFound),
        (fs_error_errno(e) == Errno::EACCES) == (e == FsError::PermissionDenied),
        (fs_error_errno(e) == Errno::EROFS) == (e == FsError::ReadOnlyFilesystem),
        (fs_error_errno(e) == Errno::EBUSY) == (e == FsError::ResourceBusy),
        (fs_error_errno(e) == Errno::ENOSPC) == (e == FsError::StorageFull),
        (fs_error_errno(e) == Errno::ENOSYS) == (e == FsError::Unsupported),
{
}

/// The numbers of the Linux interface used here: `AT_FDCWD` is -100; the
/// open flags are write-only 0x1, read-write 0x2, create 0x40, exclusive
/// 0x80, truncate 0x200, append 0x400; the `mmap` protections read 0x1,
/// write 0x2, execute 0x4 and request flags shared 0x1, private 0x2, fixed
/// 0x10, anonymous 0x20 on 4 KiB pages; `arch_prctl` sets the FS base with
/// operation 0x1002.
pub proof fn lemma_linux_constants()
    ensures
        AT_FDCWD == -100,
        O_WRONLY == 0x1 && O_RDWR == 0x2 && O_CREAT == 0x40 && O_EXCL == 0x80,
        O_TRUNC == 0x200 && O_APPEND == 0x400,
        PROT_READ == 0x1 && PROT_WRITE == 0x2 && PROT_EXEC == 0x4,
        MAP_SHARED == 0x1 && MAP_PRIVATE == 0x2 && MAP_FIXED == 0x10 && MAP_ANONYMOUS == 0x20,
        PAGE_SIZE_4K == 4096,
        ARCH_SET_FS == 0x1002,
{
}

// ---- system-call numbers ----

/// The system calls the layer knows.
#[derive(Clone, Copy, Debug, PartialEq, Eq, Structural)]
pub enum SyscallKind {
    Ioctl,
    SetTidAddress,
    Openat,
    Close,
    Read,
    Write,
    Writev,
    Mmap,
    ExitGroup,
    Exit,
    ArchPrctl,
    Unknown,
}

/// The call that number `num` names on x86-64.
pub open spec fn x86_64_syscall(num: usize) -> SyscallKind {
    if num == 0 {
        SyscallKind::Read
    } else if num == 1 {
        SyscallKind::Write
    } else if num == 3 {
        SyscallKind::Close
    } else if num == 9 {
        SyscallKind::Mmap
    } else if num == 16 {
        SyscallKind::Ioctl
    } else if num == 20 {
        SyscallKind::Writev
    } else if num == 60 {
        SyscallKind::Exit
    } else if num == 231 {
        SyscallKind::ExitGroup
    } else if num == 218 {
        SyscallKind::SetTidAddress
    } else if num == 257 {
        SyscallKind::Openat
    } else if num == 158 {
        SyscallKind::ArchPrctl
    } else {
        SyscallKind::Unknown
    }
}

/// The call that number `num` names in the generic table of RISC-V,
/// AArch64 and LoongArch (which has no `arch_prctl`).
pub open spec fn generic_syscall(num: usize) -> SyscallKind {
    if num == 29 {
        SyscallKind::Ioctl
    } else if num == 57 {
        SyscallKind::Close
    } else if num == 56 {
        SyscallKind::Openat
    } else if num == 63 {
        SyscallKind::Read
    } else if num == 64 {
        SyscallKind::Write
    } else if num == 66 {
        SyscallKind::Writev
    } else if num == 93 {
        SyscallKind::Exit
    } else if num == 94 {
        SyscallKind::ExitGroup
    } else if num == 96 {
        SyscallKind::SetTidAddress
    } else if num == 222 {
        SyscallKind::Mmap
    } else {
        SyscallKind::Unknown
    }
}

/// The call that number `num` names: x86-64 numbers when `x86_64` holds,
/// the generic table otherwise.
pub fn syscall_kind(x86_64: bool, num: usize) -> (r: SyscallKind)
    ensures
        r == if x86_64 {
            x86_64_syscall(num)
        } else {
            generic_syscall(num)
        },
{
    if x86_64 {
        match num {
            0 => SyscallKind::Read,
            1 => SyscallKind::Write,
            3 => SyscallKind::Close,
            9 => SyscallKind::Mmap,
            16 => SyscallKind::Ioctl,
            20 => SyscallKind::Writev,
            60 => SyscallKind::Exit,
            231 => SyscallKind::ExitGroup,
            218 => SyscallKind::SetTidAddress,
            257 => SyscallKind::Openat,
            158 => SyscallKind::ArchPrctl,
            _ => SyscallKind::Unknown,
        }
    } else {
        match num {
            29 => SyscallKind::Ioctl,
            57 => SyscallKind::Close,
            56 => SyscallKind::Openat,
            63 => SyscallKind::Read,
            64 => SyscallKind::Write,
            66 => SyscallKind::Writev,
            93 => SyscallKind::Exit,
            94 => SyscallKind::ExitGroup,
            96 => SyscallKind::SetTidAddress,
            222 => SyscallKind::Mmap,
            _ => SyscallKind::Unknown,
        }
    }
}

// ---- openat ----

/// `openat` relative to the current directory.
pub const AT_FDCWD: i32 = -100;
/// Open for writing only.
pub const O_WRONLY: i32 = 0x1;
/// Open for reading and writing.
pub const O_RDWR: i32 = 0x2;
/// Create the file if missing.
pub const O_CREAT: i32 = 0x40;
/// With `O_CREAT`: fail if the file exists.
pub const O_EXCL: i32 = 0x80;
/// Truncate the file.
pub const O_TRUNC: i32 = 0x200;
/// Write at the end.
pub const O_APPEND: i32 = 0x400;

/// How a file is to be opened.
#[derive(Clone, Copy, Debug, PartialEq, Eq, Structural)]
pub struct OpenRequest {
    pub read: bool,
    pub write: bool,
    pub append: bool,
    pub create: bool,
    pub truncate: bool,
    pub create_new: bool,
}

/// What the `openat` flags ask for: the access mode in the low two bits
/// (read-only, write-only or read-write), then append, create, truncate,
/// and exclusive creation when create and `O_EXCL` are both given.
pub open spec fn open_request_of(flags: i32) -> OpenRequest {
    let access = flags & 0x3;
    OpenRequest {
        read: access == 0 || access == O_RDWR,
        write: access == O_WRONLY || access == O_RDWR,
        append: flags & O_APPEND != 0,
        create: flags & O_CREAT != 0,
        truncate: flags & O_TRUNC != 0,
        create_new: flags & O_CREAT != 0 && flags & O_EXCL != 0,
    }
}

/// Reads the `openat` flags.
pub fn open_request(flags: i32) -> (r: OpenRequest)
    ensures
        r == open_request_of(flags),
{
    let access_mode = flags & 0x3;
    let read = access_mode == 0 || access_mode == O_RDWR;
    let write = access_mode == O_WRONLY || access_mode == O_RDWR;
    let append = flags & O_APPEND != 0;
    let create = flags & O_CREAT != 0;
    let truncate = flags & O_TRUNC != 0;
    let create_new = create && flags & O_EXCL != 0;
    OpenRequest { read, write, append, create, truncate, create_new }
}

/// The open flags are Linux's bits, each read on its own: the access mode
/// is the low two bits (0 read-only, 1 write-only, 2 read-write; 3 grants
/// neither), append is bit 0x400, create 0x40, truncate 0x200, and
/// exclusive creation needs both create and 0x80. The access mode does not
/// depend on the other bits, and the other requests not on the access mode.
pub proof fn lemma_open_flags(flags: i32)
    ensures
        open_request_of(flags).read == (flags & 3 == 0 || flags & 3 == 2),
        open_request_of(flags).write == (flags & 3 == 1 || flags & 3 == 2),
        open_request_of(flags).append == (flags & 0x400 != 0),
        open_request_of(flags).create == (flags & 0x40 != 0),
        open_request_of(flags).truncate == (flags & 0x200 != 0),
        open_request_of(flags).create_new == (flags & 0x40 != 0 && flags & 0x80 != 0),
{
}

/// The length of the UTF-8 encoding of one character at the front of `b`,
/// when `b` starts with one (a well-formed, shortest encoding of a Unicode
/// scalar value).
fn first_scalar_len(b: &[u8], i: usize) -> (r: Option<usize>)
    requires
        i < b@.len(),
    ensures
        ({
            let rest = b@.subrange(i as int, b@.len() as int);
            r == if valid_first_scalar(rest) {
                Some(length_of_first_scalar(rest) as usize)
            } else {
                None::<usize>
            }
        }),
{
    let ghost rest = b@.subrange(i as int, b@.len() as int);
    let n = b.len();
    let b0 = b[i];
    if b0 <= 0x7f {
        return Some(1);
    }
    if b0 < 0xc0 || b0 > 0xf7 {
        return None;
    }
    if i + 1 >= n || b[i + 1] < 0x80 || b[i + 1] > 0xbf {
        return None;
    }
    let b1 = b[i + 1];
    if b0 <= 0xdf {
        let cp: u32 = (((b0 & 0x1F) as u32) << 6u32) | ((b1 & 0x3f) as u32);
        assert(cp == vstd::utf8::decode_first_codepoint(rest));
        if cp >= 0x80 {
            assert(cp <= 0x7ff) by (bit_vector)
                requires
                    cp == (((b0 & 0x1F) as u32) << 6u32) | ((b1 & 0x3f) as u32),
            ;
            return Some(2);
        }
        return None;
    }
    if i + 2 >= n || b[i + 2] < 0x80 || b[i + 2] > 0xbf {
        return None;
    }
    let b2 = b[i + 2];
    if b0 <= 0xef {
        let cp: u32 = (((b0 & 0x0F) as u32) << 12u32) | (((b1 & 0x3f) as u32) << 6u32) | ((b2
            & 0x3f) as u32);
        assert(cp == vstd::utf8::decode_first_codepoint(rest));
        if cp >= 0x800 && !(0xD800 <= cp && cp <= 0xDFFF) {
            return Some(3);
        }
        return None;
    }
    if i + 3 >= n || b[i + 3] < 0x80 || b[i + 3] > 0xbf {
        return None;
    }
    let b3 = b[i + 3];
    let cp: u32 = (((b0 & 0x07) as u32) << 18u32) | (((b1 & 0x3f) as u32) << 12u32) | (((b2
        & 0x3f) as u32) << 6u32) | ((b3 & 0x3f) as u32);
    assert(cp == vstd::utf8::decode_first_codepoint(rest));
    if 0x10000 <= cp && cp <= 0x10ffff {
        Some(4)
    } else {
        None
    }
}

/// Whether `bytes` is UTF-8: a sequence of well-formed, shortest encodings
/// of Unicode scalar values (no surrogates, nothing above `0x10FFFF`).
pub fn path_is_utf8(bytes: &[u8]) -> (r: bool)
    ensures
        r == valid_utf8(bytes@),
{
    let n = bytes.len();
    let mut i: usize = 0;
    proof {
        assert(bytes@.subrange(0, 0) =~= Seq::<u8>::empty());
    }
    while i < n
        invariant
            n == bytes@.len(),
            partial_valid_utf8(bytes@, i as int),
        decreases n - i,
    {
        match first_scalar_len(bytes, i) {
            None => {
                proof {
                    partial_valid_partial_invalid_utf8(bytes@, i as int);
                }
                return false;
            },
            Some(k) => {
                proof {
                    partial_valid_utf8_extend(bytes@, i as int);
                }
                i = i + k;
            },
        }
    }
    proof {
        assert(bytes@.subrange(0, n as int) =~= bytes@);
    }
    true
}

/// The arguments `openat` accepts before looking at the path: only paths
/// relative to the current directory, and a path must be given.
pub fn check_openat_args(dfd: i32, fname_is_null: bool) -> (r: Result<(), Errno>)
    ensures
        r == if dfd != AT_FDCWD || fname_is_null {
            Err::<(), Errno>(Errno::EINVAL)
        } else {
            Ok::<(), Errno>(())
        },
{
    if dfd != AT_FDCWD || fname_is_null {
        Err(Errno::EINVAL)
    } else {
        Ok(())
    }
}

/// What `openat` decides before it opens anything: the arguments as
/// [`check_openat_args`] checks them, then the path (the bytes of the C
/// string, without its terminating NUL; none for a null pointer) must be
/// UTF-8. Every refusal is `EINVAL`.
pub fn check_openat_path(dfd: i32, fname: Option<&[u8]>) -> (r: Result<(), Errno>)
    ensures
        r == match fname {
            None => Err::<(), Errno>(Errno::EINVAL),
            Some(path) => if dfd != AT_FDCWD || !valid_utf8(path@) {
                Err::<(), Errno>(Errno::EINVAL)
            } else {
                Ok::<(), Errno>(())
            },
        },
{
    match fname {
        None => check_openat_args(dfd, true),
        Some(path) => {
            let r = check_openat_args(dfd, false);
            if r.is_err() {
                return r;
            }
            if path_is_utf8(path) {
                Ok(())
            } else {
                Err(Errno::EINVAL)
            }
        },
    }
}

// ---- descriptor table ----

/// The first descriptor a file gets; 0, 1 and 2 are the standard streams.
pub const FIRST_FILE_FD: usize = 3;

/// The file at descriptor `fd` in `slots`, if any.
pub open spec fn fd_lookup<T>(slots: Seq<Option<T>>, fd: int) -> Option<T> {
    if fd >= 3 && fd - 3 < slots.len() {
        slots[fd - 3]
    } else {
        None
    }
}

/// The lowest free slot of `slots`, if one is free.
pub open spec fn is_first_free<T>(slots: Seq<Option<T>>, i: int) -> bool {
    &&& 0 <= i < slots.len()
    &&& slots[i] is None
    &&& forall|j: int| 0 <= j < i ==> #[trigger] slots[j] is Some
}

/// Open files by descriptor; descriptors below 3 are the standard streams
/// and never name a file of the table.
pub struct FdTable<T> {
    slots: Vec<Option<T>>,
}

impl<T> View for FdTable<T> {
    type V = Seq<Option<T>>;

    closed spec fn view(&self) -> Seq<Option<T>> {
        self.slots@
    }
}

impl<T> FdTable<T> {
    /// A table without files.
    pub fn new() -> (r: Self)
        ensures
            r@ == Seq::<Option<T>>::empty(),
    {
        FdTable { slots: Vec::new() }
    }

    /// Drops every file.
    pub fn clear(&mut self)
        ensures
            final(self)@ == Seq::<Option<T>>::empty(),
    {
        self.slots.clear();
    }

    /// Gives `file` the lowest free descriptor: a freed slot when there is
    /// one, otherwise a new slot at the end.
    pub fn alloc_fd(&mut self, file: T) -> (fd: usize)
        requires
            old(self)@.len() + 3 <= usize::MAX,
        ensures
            fd >= 3,
            (exists|i: int| is_first_free(old(self)@, i)) ==> is_first_free(old(self)@, fd - 3)
                && final(self)@ == old(self)@.update(fd - 3, Some(file)),
            !(exists|i: int| is_first_free(old(self)@, i)) ==> fd == old(self)@.len() + 3
                && final(self)@ == old(self)@.push(Some(file)),
    {
        let mut idx: usize = 0;
        while idx < self.slots.len()
            invariant
                self.slots@ == old(self)@,
                old(self)@.len() + 3 <= usize::MAX,
                idx <= self.slots@.len(),
                forall|j: int| 0 <= j < idx ==> #[trigger] self.slots@[j] is Some,
            decreases self.slots@.len() - idx,
        {
            if self.slots[idx].is_none() {
                assert(is_first_free(old(self)@, idx as int));
                self.slots.set(idx, Some(file));
                return idx + 3;
            }
            idx = idx + 1;
        }
        proof {
            assert forall|i: int| !is_first_free(old(self)@, i) by {}
        }
        self.slots.push(Some(file));
        self.slots.len() + 2
    }

    /// The file at descriptor `fd`, if any.
    pub fn get_fd(&self, fd: i32) -> (r: Option<&T>)
        ensures
            match r {
                Some(f) => fd_lookup(self@, fd as int) == Some(*f),
                None => fd_lookup(self@, fd as int) is None,
            },
    {
        if fd < 3 {
            return None;
        }
        let idx = (fd - 3) as usize;
        if idx < self.slots.len() {
            match &self.slots[idx] {
                Some(f) => Some(f),
                None => None,
            }
        } else {
            None
        }
    }

    /// Takes the file at descriptor `fd` out of the table, freeing the descriptor.
    pub fn take_fd(&mut self, fd: i32) -> (r: Option<T>)
        ensures
            r == fd_lookup(old(self)@, fd as int),
            r is Some ==> final(self)@ == old(self)@.update(fd - 3, None),
            r is None ==> final(self)@ == old(self)@,
    {
        if fd < 3 {
            return None;
        }
        let idx = (fd - 3) as usize;
        if idx < self.slots.len() {
            let mut taken: Option<T> = None;
            std::mem::swap(&mut self.slots[idx], &mut taken);
            if taken.is_none() {
                assert(self.slots@ =~= old(self)@);
            }
            taken
        } else {
            None
        }
    }
}

/// The table after [`FdTable::alloc_fd`] gave `file` descriptor `fd`: the
/// freed slot is filled, or a slot is added at the end.
pub open spec fn after_alloc<T>(slots: Seq<Option<T>>, fd: int, file: T) -> Seq<Option<T>> {
    if fd - 3 < slots.len() {
        slots.update(fd - 3, Some(file))
    } else {
        slots.push(Some(file))
    }
}

/// A free slot at `j` means there is a lowest free slot, at or below `j`.
proof fn lemma_first_free_exists<T>(slots: Seq<Option<T>>, j: int)
    requires
        0 <= j < slots.len(),
        slots[j] is None,
    ensures
        exists|i: int| i <= j && #[trigger] is_first_free(slots, i),
    decreases j,
{
    if forall|m: int| 0 <= m < j ==> #[trigger] slots[m] is Some {
        assert(is_first_free(slots, j));
    } else {
        let m = choose|m: int| 0 <= m < j && !(#[trigger] slots[m] is Some);
        lemma_first_free_exists(slots, m);
    }
}

/// Taking back what was just allocated: the file given descriptor `fd` is
/// found there; once taken out, the descriptor names nothing (so a second
/// take finds nothing), every descriptor names what it named before the
/// allocation, and the lowest free slot is the freed one, so the next file
/// gets `fd` again.
pub proof fn lemma_alloc_take_roundtrip<T>(slots: Seq<Option<T>>, fd: int, file: T)
    requires
        fd >= 3,
        (exists|i: int| is_first_free(slots, i)) ==> is_first_free(slots, fd - 3),
        !(exists|i: int| is_first_free(slots, i)) ==> fd == slots.len() + 3,
    ensures
        fd_lookup(after_alloc(slots, fd, file), fd) == Some(file),
        fd_lookup(after_alloc(slots, fd, file).update(fd - 3, None), fd) is None,
        forall|g: int|
            #![trigger fd_lookup(slots, g)]
            fd_lookup(after_alloc(slots, fd, file).update(fd - 3, None), g) == fd_lookup(slots, g),
        is_first_free(after_alloc(slots, fd, file).update(fd - 3, None), fd - 3),
        forall|i: int|
            #![trigger is_first_free(after_alloc(slots, fd, file).update(fd - 3, None), i)]
            is_first_free(after_alloc(slots, fd, file).update(fd - 3, None), i) ==> i == fd - 3,
{
    let a = after_alloc(slots, fd, file);
    let t = a.update(fd - 3, None);
    if !(exists|i: int| is_first_free(slots, i)) {
        assert forall|j: int| 0 <= j < slots.len() implies #[trigger] slots[j] is Some by {
            if slots[j] is None {
                lemma_first_free_exists(slots, j);
            }
        }
    }
    assert forall|i: int| #[trigger] is_first_free(t, i) implies i == fd - 3 by {
        if i < fd - 3 {
            assert(t[i] == slots[i]);
        } else if i > fd - 3 {
            assert(t[fd - 3] is Some);
        }
    }
    assert(is_first_free(t, fd - 3)) by {
        assert forall|m: int| 0 <= m < fd - 3 implies #[trigger] t[m] is Some by {
            assert(t[m] == slots[m]);
        }
    }
}

/// Closes descriptor `fd`: closing a standard stream does nothing and
/// succeeds; closing a descriptor without a file is `EBADF`.
pub fn close_fd<T>(table: &mut FdTable<T>, fd: i32) -> (r: Result<(), Errno>)
    ensures
        fd < 3 ==> r == Ok::<(), Errno>(()) && final(table)@ == old(table)@,
        fd >= 3 && fd_lookup(old(table)@, fd as int) is Some ==> r == Ok::<(), Errno>(())
            && final(table)@ == old(table)@.update(fd - 3, None),
        fd >= 3 && fd_lookup(old(table)@, fd as int) is None ==> r == Err::<(), Errno>(Errno::EBADF)
            && final(table)@ == old(table)@,
{
    if fd < 3 {
        return Ok(());
    }
    if table.take_fd(fd).is_some() {
        Ok(())
    } else {
        Err(Errno::EBADF)
    }
}

/// The call numbers are Linux's: in the generic table (RISC-V, AArch64,
/// LoongArch, as in asm-generic) 29 is ioctl, 56 openat, 57 close, 63 read,
/// 64 write, 66 writev, 93 exit, 94 exit_group, 96 set_tid_address and 222
/// mmap; in the x86-64 table 0 is read, 1 write, 3 close, 9 mmap, 16 ioctl,
/// 20 writev, 60 exit, 158 arch_prctl, 218 set_tid_address, 231 exit_group
/// and 257 openat. Each call has exactly that number, and any other number
/// is unknown.
pub proof fn lemma_syscall_numbers(num: usize)
    ensures
        (generic_syscall(num) == SyscallKind::Ioctl) == (num == 29),
        (generic_syscall(num) == SyscallKind::Openat) == (num == 56),
        (generic_syscall(num) == SyscallKind::Close) == (num == 57),
        (generic_syscall(num) == SyscallKind::Read) == (num == 63),
        (generic_syscall(num) == SyscallKind::Write) == (num == 64),
        (generic_syscall(num) == SyscallKind::Writev) == (num == 66),
        (generic_syscall(num) == SyscallKind::Exit) == (num == 93),
        (generic_syscall(num) == SyscallKind::ExitGroup) == (num == 94),
        (generic_syscall(num) == SyscallKind::SetTidAddress) == (num == 96),
        (generic_syscall(num) == SyscallKind::Mmap) == (num == 222),
        generic_syscall(num) != SyscallKind::ArchPrctl,
        (x86_64_syscall(num) == SyscallKind::Read) == (num == 0),
        (x86_64_syscall(num) == SyscallKind::Write) == (num == 1),
        (x86_64_syscall(num) == SyscallKind::Close) == (num == 3),
        (x86_64_syscall(num) == SyscallKind::Mmap) == (num == 9),
        (x86_64_syscall(num) == SyscallKind::Ioctl) == (num == 16),
        (x86_64_syscall(num) == SyscallKind::Writev) == (num == 20),
        (x86_64_syscall(num) == SyscallKind::Exit) == (num == 60),
        (x86_64_syscall(num) == SyscallKind::ArchPrctl) == (num == 158),
        (x86_64_syscall(num) == SyscallKind::SetTidAddress) == (num == 218),
        (x86_64_syscall(num) == SyscallKind::ExitGroup) == (num == 231),
        (x86_64_syscall(num) == SyscallKind::Openat) == (num == 257),
{
}

// ---- dispatch ----

/// What the dispatcher does with a system call before any work that needs
/// the address space, the file system or the scheduler.
#[derive(Clone, Copy, Debug, PartialEq, Eq, Structural)]
pub enum SyscallPlan {
    /// Return this value to user space at once.
    Return(isize),
    /// Fail with this error.
    Fail(Errno),
    /// Return the id of the calling task.
    TaskId,
    /// End the task with this exit code.
    Exit(i32),
    /// Carry the call out: open, close, read, write, writev, mmap or arch_prctl.
    Perform,
}

/// The outcome of call `kind` with first argument `arg0`; see [`plan_syscall`].
pub open spec fn syscall_plan_of(kind: SyscallKind, arg0: usize) -> SyscallPlan {
    match kind {
        SyscallKind::Ioctl => SyscallPlan::Return(0),
        SyscallKind::SetTidAddress => SyscallPlan::TaskId,
        SyscallKind::Exit | SyscallKind::ExitGroup => SyscallPlan::Exit(arg0 as i32),
        SyscallKind::Unknown => SyscallPlan::Fail(Errno::ENOSYS),
        _ => SyscallPlan::Perform,
    }
}

/// What dispatching does, call by call: only the two exit calls end the
/// task, with the first argument read as a 32-bit code (its low 32 bits, so
/// an argument that fits a non-negative `i32` is the code itself, and
/// one whose low 32 bits are all set, such as `usize::MAX`, is -1); `ioctl` returns 0 at once; `set_tid_address`
/// returns the task id; only an unknown call fails, with `ENOSYS`; the
/// calls that move data or change the address space are carried out.
pub proof fn lemma_dispatch_outcomes(kind: SyscallKind, arg0: usize)
    ensures
        (syscall_plan_of(kind, arg0) is Exit) == (kind == SyscallKind::Exit || kind
            == SyscallKind::ExitGroup),
        syscall_plan_of(kind, arg0) is Exit && arg0 <= 0x7fff_ffff ==> syscall_plan_of(kind, arg0)
            == SyscallPlan::Exit(arg0 as int as i32) && (arg0 as int as i32) as int == arg0 as int,
        syscall_plan_of(kind, arg0) is Exit && arg0 & 0xffff_ffff == 0xffff_ffff ==> syscall_plan_of(
            kind,
            arg0,
        ) == SyscallPlan::Exit(-1i32),
        (syscall_plan_of(kind, arg0) == SyscallPlan::Return(0)) == (kind == SyscallKind::Ioctl),
        (syscall_plan_of(kind, arg0) == SyscallPlan::TaskId) == (kind == SyscallKind::SetTidAddress),
        (syscall_plan_of(kind, arg0) is Fail) == (kind == SyscallKind::Unknown),
        syscall_plan_of(kind, arg0) is Fail ==> syscall_plan_of(kind, arg0) == SyscallPlan::Fail(
            Errno::ENOSYS,
        ),
        (syscall_plan_of(kind, arg0) == SyscallPlan::Perform) == (kind == SyscallKind::Openat || kind
            == SyscallKind::Close || kind == SyscallKind::Read || kind == SyscallKind::Write || kind
            == SyscallKind::Writev || kind == SyscallKind::Mmap || kind == SyscallKind::ArchPrctl),
        syscall_plan_of(kind, arg0) is Return ==> syscall_plan_of(kind, arg0) == SyscallPlan::Return(0),
{
    if arg0 <= 0x7fff_ffff {
        assert((arg0 as i32) as int == arg0 as int) by (bit_vector)
            requires
                arg0 <= 0x7fff_ffff,
        ;
    }
    if arg0 & 0xffff_ffff == 0xffff_ffff {
        assert((arg0 as i32) == -1i32) by (bit_vector)
            requires
                arg0 & 0xffff_ffff == 0xffff_ffff,
        ;
    }
}

/// The dispatcher's outcome table, given the call and its first argument:
/// `ioctl` is ignored and returns 0, `set_tid_address` returns the task id,
/// `exit` and `exit_group` end the task with the low 32 bits of the first
/// argument as exit code, an unknown call fails with `ENOSYS`, and every
/// other call is carried out.
pub fn plan_syscall(kind: SyscallKind, arg0: usize) -> (r: SyscallPlan)
    ensures
        r == syscall_plan_of(kind, arg0),
{
    match kind {
        SyscallKind::Ioctl => SyscallPlan::Return(0),
        SyscallKind::SetTidAddress => SyscallPlan::TaskId,
        SyscallKind::Exit | SyscallKind::ExitGroup => SyscallPlan::Exit(arg0 as i32),
        SyscallKind::Unknown => SyscallPlan::Fail(Errno::ENOSYS),
        _ => SyscallPlan::Perform,
    }
}

// ---- read, write, writev ----

/// Where a read or write goes.
#[derive(Clone, Copy, Debug, PartialEq, Eq, Structural)]
pub enum IoRoute {
    /// Nothing to transfer: the call returns this count at once.
    Done(usize),
    /// The call fails with this error.
    Fail(Errno),
    /// The bytes go to the console.
    Console,
    /// The bytes go to or come from the file at the descriptor.
    File,
}

/// Where a read goes; see [`read_route`].
pub open spec fn read_route_of<T>(slots: Seq<Option<T>>, fd: i32, buf_is_null: bool, count: usize) -> IoRoute {
    if count == 0 {
        IoRoute::Done(0)
    } else if buf_is_null {
        IoRoute::Fail(Errno::EFAULT)
    } else if fd == 0 {
        IoRoute::Done(0)
    } else if fd_lookup(slots, fd as int) is None {
        IoRoute::Fail(Errno::EBADF)
    } else {
        IoRoute::File
    }
}

/// Where a write goes; see [`write_route`].
pub open spec fn write_route_of<T>(slots: Seq<Option<T>>, fd: i32, buf_is_null: bool, count: usize) -> IoRoute {
    if count == 0 {
        IoRoute::Done(0)
    } else if buf_is_null {
        IoRoute::Fail(Errno::EFAULT)
    } else if fd == 1 || fd == 2 {
        IoRoute::Console
    } else if fd_lookup(slots, fd as int) is None {
        IoRoute::Fail(Errno::EBADF)
    } else {
        IoRoute::File
    }
}

/// What reads and writes are for: an empty transfer always returns 0 at
/// once. Otherwise a missing buffer is `EFAULT`. Writes to descriptors 1
/// and 2 (standard output and error) and only those go to the console;
/// reads from descriptor 0 (standard input) read nothing. Any other
/// descriptor reaches a file exactly when the table holds one at it (so
/// never for a negative descriptor), and is `EBADF` otherwise. Reads never
/// go to the console.
pub proof fn lemma_io_routes<T>(slots: Seq<Option<T>>, fd: i32, buf_is_null: bool, count: usize)
    ensures
        count == 0 ==> read_route_of(slots, fd, buf_is_null, count) == IoRoute::Done(0)
            && write_route_of(slots, fd, buf_is_null, count) == IoRoute::Done(0),
        count > 0 && buf_is_null ==> read_route_of(slots, fd, buf_is_null, count) == IoRoute::Fail(
            Errno::EFAULT,
        ) && write_route_of(slots, fd, buf_is_null, count) == IoRoute::Fail(Errno::EFAULT),
        (write_route_of(slots, fd, buf_is_null, count) == IoRoute::Console) == (count > 0 && !buf_is_null
            && (fd == 1 || fd == 2)),
        read_route_of(slots, fd, buf_is_null, count) != IoRoute::Console,
        count > 0 && !buf_is_null && fd == 0 ==> read_route_of(slots, fd, buf_is_null, count)
            == IoRoute::Done(0),
        (write_route_of(slots, fd, buf_is_null, count) == IoRoute::File) == (count > 0 && !buf_is_null
            && fd != 1 && fd != 2 && fd >= 3 && fd - 3 < slots.len() && slots[fd - 3] is Some),
        (read_route_of(slots, fd, buf_is_null, count) == IoRoute::File) == (count > 0 && !buf_is_null
            && fd >= 3 && fd - 3 < slots.len() && slots[fd - 3] is Some),
        count > 0 && !buf_is_null && fd != 0 && !(fd >= 3 && fd - 3 < slots.len() && slots[fd - 3] is Some)
            ==> read_route_of(slots, fd, buf_is_null, count) == IoRoute::Fail(Errno::EBADF),
        count > 0 && !buf_is_null && fd != 1 && fd != 2 && !(fd >= 3 && fd - 3 < slots.len()
            && slots[fd - 3] is Some) ==> write_route_of(slots, fd, buf_is_null, count)
            == IoRoute::Fail(Errno::EBADF),
{
}

/// Where `read(fd, buf, count)` goes: an empty read returns 0; a missing
/// buffer is `EFAULT`; standard input reads nothing; otherwise the
/// descriptor must name a file (`EBADF`).
pub fn read_route<T>(table: &FdTable<T>, fd: i32, buf_is_null: bool, count: usize) -> (r: IoRoute)
    ensures
        r == read_route_of(table@, fd, buf_is_null, count),
{
    if count == 0 {
        return IoRoute::Done(0);
    }
    if buf_is_null {
        return IoRoute::Fail(Errno::EFAULT);
    }
    if fd == 0 {
        return IoRoute::Done(0);
    }
    match table.get_fd(fd) {
        Some(_) => IoRoute::File,
        None => IoRoute::Fail(Errno::EBADF),
    }
}

/// Where `write(fd, buf, count)` goes: an empty write returns 0; a missing
/// buffer is `EFAULT`; standard output and error go to the console;
/// otherwise the descriptor must name a file (`EBADF`).
pub fn write_route<T>(table: &FdTable<T>, fd: i32, buf_is_null: bool, count: usize) -> (r: IoRoute)
    ensures
        r == write_route_of(table@, fd, buf_is_null, count),
{
    if count == 0 {
        return IoRoute::Done(0);
    }
    if buf_is_null {
        return IoRoute::Fail(Errno::EFAULT);
    }
    if fd == 1 || fd == 2 {
        return IoRoute::Console;
    }
    match table.get_fd(fd) {
        Some(_) => IoRoute::File,
        None => IoRoute::Fail(Errno::EBADF),
    }
}

/// The number of `writev` entries: a negative count is `EINVAL`.
pub fn writev_count(iovcnt: i32) -> (r: Result<usize, Errno>)
    ensures
        iovcnt < 0 ==> r == Err::<usize, Errno>(Errno::EINVAL),
        iovcnt >= 0 ==> r == Ok::<usize, Errno>(iovcnt as usize),
{
    if iovcnt < 0 {
        Err(Errno::EINVAL)
    } else {
        Ok(iovcnt as usize)
    }
}

/// A `writev` entry without length or without buffer is skipped.
pub fn writev_skips(iov_base: usize, iov_len: usize) -> (r: bool)
    ensures
        r == (iov_len == 0 || iov_base == 0),
{
    iov_len == 0 || iov_base == 0
}

/// Folds the result `ret` of writing one `writev` entry into the running
/// total: a failure stops the call with the error when nothing was written
/// yet and with the total otherwise (`Err`); a count adds to the total (`Ok`).
pub fn writev_accumulate(total: isize, ret: isize) -> (r: Result<isize, isize>)
    requires
        ret >= 0 ==> total + ret <= isize::MAX,
    ensures
        ret < 0 ==> r == Err::<isize, isize>(if total == 0 { ret } else { total }),
        ret >= 0 ==> r == Ok::<isize, isize>((total + ret) as isize),
{
    if ret < 0 {
        return Err(if total == 0 { ret } else { total });
    }
    Ok(total + ret)
}

/// What `writev` does next, given the results of the writes made so far.
#[derive(Clone, Copy, Debug, PartialEq, Eq, Structural)]
pub enum WritevStep {
    /// Write entry `i` (its buffer and length) and report the result.
    Write(usize),
    /// The call is over and returns this value.
    Finish(isize),
}

/// The positive results among `results`, added up.
pub open spec fn written_sum(results: Seq<isize>) -> int
    decreases results.len(),
{
    if results.len() == 0 {
        0
    } else {
        written_sum(results.drop_last()) + if results.last() >= 0 {
            results.last() as int
        } else {
            0
        }
    }
}

/// `writev` over `entries` (buffer address, length), from entry `i` on,
/// with `total` written so far and `results[k..]` the results of the writes
/// still to be accounted for: entries without length or buffer are skipped;
/// the next entry to write is asked for once the results run out; a failed
/// write ends the call with its error when nothing was written yet and with
/// the total otherwise; after the last entry the call returns the total.
pub open spec fn writev_from(
    entries: Seq<(usize, usize)>,
    results: Seq<isize>,
    i: int,
    k: int,
    total: int,
) -> WritevStep
    decreases entries.len() - i,
{
    if i < 0 || i >= entries.len() {
        WritevStep::Finish(total as isize)
    } else if entries[i].1 == 0 || entries[i].0 == 0 {
        writev_from(entries, results, i + 1, k, total)
    } else if k < 0 || k >= results.len() {
        WritevStep::Write(i as usize)
    } else if results[k] < 0 {
        WritevStep::Finish(if total == 0 { results[k] } else { total as isize })
    } else {
        writev_from(entries, results, i + 1, k + 1, total + results[k])
    }
}

proof fn lemma_written_sum_nonneg(results: Seq<isize>)
    ensures
        written_sum(results) >= 0,
    decreases results.len(),
{
    if results.len() > 0 {
        lemma_written_sum_nonneg(results.drop_last());
    }
}

proof fn lemma_written_sum_prefix(results: Seq<isize>, k: int)
    requires
        0 <= k < results.len(),
    ensures
        written_sum(results.take(k + 1)) == written_sum(results.take(k)) + if results[k] >= 0 {
            results[k] as int
        } else {
            0
        },
        written_sum(results.take(k + 1)) <= written_sum(results),
    decreases results.len() - k,
{
    assert(results.take(k + 1).drop_last() =~= results.take(k));
    if k + 1 < results.len() {
        lemma_written_sum_prefix(results, k + 1);
    } else {
        assert(results.take(k + 1) =~= results);
    }
}

/// How many of the first `i` entries have both a buffer and a length, that
/// is, are written.
pub open spec fn written_entries(entries: Seq<(usize, usize)>, i: int) -> nat
    decreases i,
{
    if i <= 0 {
        0
    } else {
        written_entries(entries, i - 1) + if entries[i - 1].0 != 0 && entries[i - 1].1 != 0 {
            1nat
        } else {
            0nat
        }
    }
}

/// The first failed write among `results` is at `f`: the writes before it
/// all succeeded.
pub open spec fn first_failure(results: Seq<isize>, f: int) -> bool {
    &&& 0 <= f < results.len()
    &&& results[f] < 0
    &&& forall|j: int| 0 <= j < f ==> #[trigger] results[j] >= 0
}

/// What a `writev` step `out` taken from entry `i` on must be: a write of a
/// non-empty entry at or after `i`, preceded by as many written entries as
/// there are results, all of them successful; or the end, at the first
/// failed write (its error when nothing was written before it, else the
/// total) or after every entry to write was written (the total).
pub open spec fn writev_outcome(entries: Seq<(usize, usize)>, results: Seq<isize>, i: int, out: WritevStep) -> bool {
    match out {
        WritevStep::Write(w) => {
            &&& i <= w < entries.len()
            &&& entries[w as int].0 != 0 && entries[w as int].1 != 0
            &&& written_entries(entries, w as int) == results.len()
            &&& forall|j: int| 0 <= j < results.len() ==> #[trigger] results[j] >= 0
        },
        WritevStep::Finish(v) => {
            ||| exists|f: int|
                #[trigger] first_failure(results, f) && f < written_entries(entries, entries.len() as int)
                    && v == if written_sum(results.take(f)) == 0 {
                    results[f] as int
                } else {
                    written_sum(results.take(f))
                }
            ||| {
                let m = written_entries(entries, entries.len() as int) as int;
                &&& m <= results.len()
                &&& forall|j: int| 0 <= j < m ==> #[trigger] results[j] >= 0
                &&& v == written_sum(results.take(m))
            }
        },
    }
}

proof fn lemma_written_entries_step(entries: Seq<(usize, usize)>, i: int)
    requires
        0 <= i,
    ensures
        written_entries(entries, i + 1) == written_entries(entries, i) + if entries[i].0 != 0
            && entries[i].1 != 0 {
            1nat
        } else {
            0nat
        },
{
}

proof fn lemma_writev_from(entries: Seq<(usize, usize)>, results: Seq<isize>, i: int, k: int, total: int)
    requires
        0 <= i <= entries.len(),
        entries.len() <= usize::MAX,
        k == written_entries(entries, i),
        k <= results.len(),
        total == written_sum(results.take(k)),
        forall|j: int| 0 <= j < k ==> #[trigger] results[j] >= 0,
        written_sum(results) <= isize::MAX,
    ensures
        writev_outcome(entries, results, i, writev_from(entries, results, i, k, total)),
    decreases entries.len() - i,
{
    lemma_written_sum_nonneg(results.take(k));
    if k < results.len() {
        lemma_written_sum_prefix(results, k);
    } else {
        assert(results.take(k) =~= results);
    }
    if i < entries.len() {
        lemma_written_entries_step(entries, i);
        if entries[i].1 == 0 || entries[i].0 == 0 {
            lemma_writev_from(entries, results, i + 1, k, total);
            assert(writev_outcome(entries, results, i, writev_from(entries, results, i, k, total)));
        } else if k >= results.len() {
            assert(writev_from(entries, results, i, k, total) == WritevStep::Write(i as usize));
            assert(written_entries(entries, i) == results.len());
            assert(writev_outcome(entries, results, i, WritevStep::Write(i as usize)));
        } else if results[k] < 0 {
            assert(first_failure(results, k));
            lemma_written_entries_monotone(entries, i + 1, entries.len() as int);
            assert(k < written_entries(entries, entries.len() as int));
            assert(writev_outcome(entries, results, i, writev_from(entries, results, i, k, total)));
        } else {
            lemma_written_sum_prefix(results, k);
            lemma_writev_from(entries, results, i + 1, k + 1, total + results[k]);
            assert(writev_outcome(entries, results, i, writev_from(entries, results, i, k, total)));
        }
    } else {
        assert(writev_from(entries, results, i, k, total) == WritevStep::Finish(total as isize));
        assert(k <= results.len());
        assert(total <= isize::MAX);
        assert(total >= 0);
        assert(writev_outcome(entries, results, i, WritevStep::Finish(total as isize)));
    }
}

proof fn lemma_written_entries_monotone(entries: Seq<(usize, usize)>, i: int, j: int)
    requires
        0 <= i <= j,
    ensures
        written_entries(entries, i) <= written_entries(entries, j),
    decreases j - i,
{
    if i < j {
        lemma_written_entries_step(entries, j - 1);
        lemma_written_entries_monotone(entries, i, j - 1);
    }
}

/// What `writev` does, over all entries and results: it asks to write only
/// an entry with a buffer and a length, and only while every write so far
/// has succeeded, the entries being taken in order (the entry asked for is
/// preceded by exactly as many written entries as there are results). It
/// finishes either at the first failed write, returning that error when
/// nothing was written before it and the total written otherwise, or, when
/// every entry to write was written without failure, with the total (the
/// results fitting an `isize` when added up, as [`writev_next`] requires).
pub proof fn lemma_writev_driver(entries: Seq<(usize, usize)>, results: Seq<isize>)
    requires
        entries.len() <= usize::MAX,
        written_sum(results) <= isize::MAX,
    ensures
        writev_outcome(entries, results, 0, writev_from(entries, results, 0, 0, 0)),
{
    assert(results.take(0) =~= Seq::<isize>::empty());
    lemma_writev_from(entries, results, 0, 0, 0);
}

/// The `writev` driver: given the entries and the results of the writes
/// made so far (one per entry written, in order), either the entry to write
/// next or the value the call returns. Calling it again with each new result
/// appended carries out `writev` exactly; an entry is never written after a
/// failure.
pub fn writev_next(entries: &[(usize, usize)], results: &[isize]) -> (r: WritevStep)
    requires
        written_sum(results@) <= isize::MAX,
    ensures
        r == writev_from(entries@, results@, 0, 0, 0),
        writev_outcome(entries@, results@, 0, r),
{
    let n = entries.len();
    proof {
        lemma_writev_driver(entries@, results@);
    }
    let mut i: usize = 0;
    let mut k: usize = 0;
    let mut total: isize = 0;
    proof {
        assert(results@.take(0) =~= Seq::<isize>::empty());
    }
    while i < n
        invariant
            n == entries@.len(),
            i <= n,
            k <= results@.len(),
            total == written_sum(results@.take(k as int)),
            written_sum(results@) <= isize::MAX,
            writev_outcome(entries@, results@, 0, writev_from(entries@, results@, 0, 0, 0)),
            forall|j: int| 0 <= j < k ==> #[trigger] results@[j] >= 0,
            writev_from(entries@, results@, 0, 0, 0) == writev_from(
                entries@,
                results@,
                i as int,
                k as int,
                total as int,
            ),
        decreases n - i,
    {
        let (base, len) = entries[i];
        if writev_skips(base, len) {
            i = i + 1;
        } else if k >= results.len() {
            return WritevStep::Write(i);
        } else {
            let ret = results[k];
            proof {
                lemma_written_sum_prefix(results@, k as int);
            }
            match writev_accumulate(total, ret) {
                Err(v) => {
                    return WritevStep::Finish(v);
                },
                Ok(t) => {
                    total = t;
                    i = i + 1;
                    k = k + 1;
                },
            }
        }
    }
    WritevStep::Finish(total)
}

// ---- mmap ----

/// The page size of `mmap`.
pub const PAGE_SIZE_4K: usize = 0x1000;
/// Pages may be read.
pub const PROT_READ: i32 = 1;
/// Pages may be written.
pub const PROT_WRITE: i32 = 2;
/// Pages may be executed.
pub const PROT_EXEC: i32 = 4;
/// Share the mapping.
pub const MAP_SHARED: i32 = 1;
/// Private copy-on-write mapping.
pub const MAP_PRIVATE: i32 = 2;
/// Map at exactly the given address.
pub const MAP_FIXED: i32 = 16;
/// Map memory without a file.
pub const MAP_ANONYMOUS: i32 = 32;

/// Access rights of a user mapping.
#[derive(Clone, Copy, Debug, PartialEq, Eq, Structural)]
pub struct MapFlags {
    pub read: bool,
    pub write: bool,
    pub execute: bool,
    pub user: bool,
}

/// The rights that protection bits `prot` grant to a user mapping (bits
/// other than read, write and execute are dropped).
pub open spec fn map_flags_of(prot: i32) -> MapFlags {
    MapFlags {
        read: prot & PROT_READ != 0,
        write: prot & PROT_WRITE != 0,
        execute: prot & PROT_EXEC != 0,
        user: true,
    }
}

/// The rights of a user mapping with protection bits `prot`.
pub fn map_flags_from_prot(prot: i32) -> (r: MapFlags)
    ensures
        r == map_flags_of(prot),
{
    let mut flags = MapFlags { read: false, write: false, execute: false, user: true };
    if prot & PROT_READ != 0 {
        flags.read = true;
    }
    if prot & PROT_WRITE != 0 {
        flags.write = true;
    }
    if prot & PROT_EXEC != 0 {
        flags.execute = true;
    }
    flags
}

/// `value` rounded up to a whole number of pages.
pub open spec fn page_round_up(value: int) -> int {
    (value + PAGE_SIZE_4K - 1) / PAGE_SIZE_4K as int * PAGE_SIZE_4K
}

/// Rounds `value` up to a whole number of pages.
pub fn align_up_4k(value: usize) -> (r: usize)
    requires
        page_round_up(value as int) <= usize::MAX,
    ensures
        r == page_round_up(value as int),
        r % PAGE_SIZE_4K == 0,
        value <= r < value + PAGE_SIZE_4K,
{
    let pages = value / PAGE_SIZE_4K + if value % PAGE_SIZE_4K != 0 { 1 } else { 0 };
    proof {
        assert(pages == (value + PAGE_SIZE_4K - 1) / PAGE_SIZE_4K as int);
        assert(pages * PAGE_SIZE_4K <= usize::MAX);
        assert(value <= pages * PAGE_SIZE_4K < value + PAGE_SIZE_4K) by (nonlinear_arith)
            requires
                pages == value / 4096 + if value % 4096 != 0 { 1int } else { 0 },
        ;
        assert((pages * PAGE_SIZE_4K) % PAGE_SIZE_4K as int == 0) by (nonlinear_arith);
    }
    pages * PAGE_SIZE_4K
}

/// The `mmap` request flags that the layer knows.
pub open spec fn known_map_flags(flags: i32) -> bool {
    flags & !(MAP_SHARED | MAP_PRIVATE | MAP_FIXED | MAP_ANONYMOUS) == 0
}

/// What `mmap` decides from its arguments before looking at the file, in
/// this order: a zero length or a negative or unaligned offset is
/// `EINVAL`; unknown flags are `EINVAL`; fixed or anonymous mappings are
/// not supported (`ENOSYS`); neither shared nor private is `EINVAL`; a
/// requested address is not supported (`ENOSYS`); a mapping that cannot be
/// read is `EINVAL`. Otherwise the user rights the mapping gets.
pub open spec fn mmap_decision(addr_is_null: bool, length: usize, prot: i32, flags: i32, offset: isize) -> Result<
    MapFlags,
    Errno,
> {
    if length == 0 || offset < 0 || (offset as int) % (PAGE_SIZE_4K as int) != 0 {
        Err(Errno::EINVAL)
    } else if !known_map_flags(flags) {
        Err(Errno::EINVAL)
    } else if flags & MAP_FIXED != 0 || flags & MAP_ANONYMOUS != 0 {
        Err(Errno::ENOSYS)
    } else if flags & (MAP_SHARED | MAP_PRIVATE) == 0 {
        Err(Errno::EINVAL)
    } else if !addr_is_null {
        Err(Errno::ENOSYS)
    } else if !map_flags_of(prot).read {
        Err(Errno::EINVAL)
    } else {
        Ok(map_flags_of(prot))
    }
}

/// Checks the `mmap` arguments; see [`mmap_decision`].
pub fn check_mmap_args(addr_is_null: bool, length: usize, prot: i32, flags: i32, offset: isize) -> (r: Result<
    MapFlags,
    Errno,
>)
    ensures
        r == mmap_decision(addr_is_null, length, prot, flags, offset),
{
    if length == 0 || offset < 0 || (offset as usize) % PAGE_SIZE_4K != 0 {
        return Err(Errno::EINVAL);
    }
    if flags & !(MAP_SHARED | MAP_PRIVATE | MAP_FIXED | MAP_ANONYMOUS) != 0 {
        return Err(Errno::EINVAL);
    }
    if flags & MAP_FIXED != 0 || flags & MAP_ANONYMOUS != 0 {
        return Err(Errno::ENOSYS);
    }
    if flags & (MAP_SHARED | MAP_PRIVATE) == 0 {
        return Err(Errno::EINVAL);
    }
    if !addr_is_null {
        return Err(Errno::ENOSYS);
    }
    let mmap_flags = map_flags_from_prot(prot);
    if !mmap_flags.read {
        return Err(Errno::EINVAL);
    }
    Ok(mmap_flags)
}

/// What `mmap`'s argument checks do, over all arguments: a zero length or
/// a negative or unaligned offset is refused with `EINVAL`. For a good
/// length and offset and request flags made only of shared (0x1), private
/// (0x2), fixed (0x10) and anonymous (0x20): fixed or anonymous is `ENOSYS`;
/// otherwise neither shared nor private is `EINVAL`; otherwise a requested
/// address is `ENOSYS`; otherwise the mapping is refused (`EINVAL`) exactly
/// when it cannot be read (no 0x1 in `prot`), and else granted user rights
/// with read, write and execute from the bits 0x1, 0x2 and 0x4 of `prot`.
/// Request flags with any other bit are `EINVAL`.
pub proof fn lemma_mmap_decision(addr_is_null: bool, length: usize, prot: i32, flags: i32, offset: isize)
    ensures
        length == 0 || offset < 0 || offset % 4096 != 0 ==> mmap_decision(
            addr_is_null,
            length,
            prot,
            flags,
            offset,
        ) == Err::<MapFlags, Errno>(Errno::EINVAL),
        ({
            &&& length != 0 && offset >= 0 && offset % 4096 == 0
            &&& flags & !0x33i32 != 0
        }) ==> mmap_decision(addr_is_null, length, prot, flags, offset) == Err::<MapFlags, Errno>(
            Errno::EINVAL,
        ),
        ({
            &&& length != 0 && offset >= 0 && offset % 4096 == 0
            &&& flags & !0x33i32 == 0
        }) ==> mmap_decision(addr_is_null, length, prot, flags, offset) == if flags & 0x30 != 0 {
            Err::<MapFlags, Errno>(Errno::ENOSYS)
        } else if flags & 0x3 == 0 {
            Err::<MapFlags, Errno>(Errno::EINVAL)
        } else if !addr_is_null {
            Err::<MapFlags, Errno>(Errno::ENOSYS)
        } else if prot & 1 == 0 {
            Err::<MapFlags, Errno>(Errno::EINVAL)
        } else {
            Ok::<MapFlags, Errno>(
                MapFlags { read: true, write: prot & 2 != 0, execute: prot & 4 != 0, user: true },
            )
        },
{
    assert(MAP_SHARED | MAP_PRIVATE | MAP_FIXED | MAP_ANONYMOUS == 0x33i32) by (bit_vector);
    assert(MAP_SHARED | MAP_PRIVATE == 0x3i32) by (bit_vector);
    assert((flags & 0x10 != 0 || flags & 0x20 != 0) == (flags & 0x30 != 0)) by (bit_vector);
}

// ---- arch_prctl ----

/// `arch_prctl` operation that sets the FS base register.
pub const ARCH_SET_FS: usize = 0x1002;

/// Whether `arch_prctl` operation `op` is supported: only setting the FS
/// base; anything else is `EINVAL`.
pub fn check_arch_prctl(op: usize) -> (r: Result<(), Errno>)
    ensures
        r == if op == ARCH_SET_FS {
            Ok::<(), Errno>(())
        } else {
            Err::<(), Errno>(Errno::EINVAL)
        },
{
    if op == ARCH_SET_FS {
        Ok(())
    } else {
        Err(Errno::EINVAL)
    }
}

// ---- the user-task trap loop ----

/// Why a user task came back into the kernel.
#[derive(Clone, Copy, Debug, PartialEq, Eq, Structural)]
pub enum TrapEvent {
    /// A system call; the handler asked to end the task with this code, or
    /// not at all.
    Syscall(Option<i32>),
    /// A page fault, and whether the address space could resolve it.
    PageFault(bool),
    /// An interrupt, such as the timer.
    Interrupt,
    /// Any other trap.
    Other,
}

/// What the trap loop does next.
#[derive(Clone, Copy, Debug, PartialEq, Eq, Structural)]
pub enum TrapAction {
    /// Enter user space again.
    Resume,
    /// End the task with this exit code.
    Exit(i32),
}

/// What the trap loop does after `event`; see [`after_trap`].
pub open spec fn trap_action_of(event: TrapEvent) -> TrapAction {
    match event {
        TrapEvent::Syscall(Some(code)) => TrapAction::Exit(code),
        TrapEvent::Syscall(None) => TrapAction::Resume,
        TrapEvent::PageFault(true) => TrapAction::Resume,
        TrapEvent::PageFault(false) => TrapAction::Exit(-1i32),
        TrapEvent::Interrupt => TrapAction::Resume,
        TrapEvent::Other => TrapAction::Exit(-1i32),
    }
}

/// What the trap loop is for: the task goes on running after every trap
/// that was dealt with (a system call that did not ask to exit, a resolved
/// page fault, an interrupt); a system call that asks to exit ends it with
/// the code it asked for; a fault that could not be resolved, and any trap
/// the loop does not know, end it with -1.
pub proof fn lemma_trap_outcomes(event: TrapEvent)
    ensures
        (trap_action_of(event) == TrapAction::Resume) == (event == TrapEvent::Syscall(None)
            || event == TrapEvent::PageFault(true) || event == TrapEvent::Interrupt),
        forall|code: i32| event == TrapEvent::Syscall(Some(code)) ==> trap_action_of(event) == TrapAction::Exit(code),
        event == TrapEvent::PageFault(false) || event == TrapEvent::Other ==> trap_action_of(event)
            == TrapAction::Exit(-1i32),
{
}

/// The trap loop's decision after a trap has been dispatched: a system call
/// that asked to exit ends the task with its code; other system calls,
/// resolved page faults and interrupts enter user space again; a page fault
/// that could not be resolved, or any other trap, ends the task with -1.
pub fn after_trap(event: TrapEvent) -> (r: TrapAction)
    ensures
        r == trap_action_of(event),
{
    match event {
        TrapEvent::Syscall(Some(code)) => TrapAction::Exit(code),
        TrapEvent::Syscall(None) => TrapAction::Resume,
        TrapEvent::PageFault(handled) => {
            if handled {
                TrapAction::Resume
            } else {
                TrapAction::Exit(-1)
            }
        },
        TrapEvent::Interrupt => TrapAction::Resume,
        TrapEvent::Other => TrapAction::Exit(-1),
    }
}

} // verus!
