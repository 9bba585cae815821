//! What a device is to the rest of the kernel, and the zero device.

use vstd::prelude::*;
use vstd::string::*;

verus! {

/// The kinds of error that a device operation reports.
#[derive(Clone, Copy, Debug, PartialEq, Eq)]
pub enum ErrorKind {
    Other,
    NotFound,
    PermissionDenied,
    ConnectionRefused,
    ConnectionReset,
    ConnectionAborted,
    NotConnected,
    AddrInUse,
    AddrNotAvailable,
    BrokenPipe,
    AlreadyExists,
    InvalidInput,
    InvalidData,
    TimedOut,
    Interrupted,
    Unsupported,
    OutOfMemory,
    WriteZero,
}

/// The class of a device.
#[derive(Clone, Copy, Debug, PartialEq, Eq)]
pub enum DeviceClass {
    Char,
    Block,
    Misc,
}

/// Request code that tells a driver that its device was closed.
pub const DEVICE_REQUEST_CLOSE: u32 = 1;

/// Major and minor number of a device.
#[derive(Clone, Copy, Debug, PartialEq, Eq)]
pub struct DeviceId {
    major: usize,
    minor: usize,
}

impl DeviceId {
    /// The major number.
    pub closed spec fn spec_major(&self) -> usize {
        self.major
    }

    /// The minor number.
    pub closed spec fn spec_minor(&self) -> usize {
        self.minor
    }

    /// The id with the given numbers.
    pub fn new(major: usize, minor: usize) -> (id: DeviceId)
        ensures
            id.spec_major() == major,
            id.spec_minor() == minor,
    {
        DeviceId { major, minor }
    }

    /// The major number.
    pub fn major(&self) -> (r: usize)
        ensures
            r == self.spec_major(),
    {
        self.major
    }

    /// The minor number.
    pub fn minor(&self) -> (r: usize)
        ensures
            r == self.spec_minor(),
    {
        self.minor
    }
}

/// The device that reads as zeros without end and takes whatever is
/// written to it.
pub struct Zero;

impl Zero {
    /// The name of the device.
    pub fn name(&self) -> (r: String)
        ensures
            r@ == "zero"@,
    {
        "zero".to_owned()
    }

    /// The class of the device.
    pub fn class(&self) -> (r: DeviceClass)
        ensures
            r == DeviceClass::Char,
    {
        DeviceClass::Char
    }

    /// The id of the device: major 1, minor 5.
    pub fn id(&self) -> (r: DeviceId)
        ensures
            r.spec_major() == 1,
            r.spec_minor() == 5,
    {
        DeviceId::new(1, 5)
    }

    /// Opens the device, which always succeeds.
    pub fn open(&self) -> (r: Result<(), ErrorKind>)
        ensures
            r is Ok,
    {
        Ok(())
    }

    /// Closes the device, which always succeeds.
    pub fn close(&self) -> (r: Result<(), ErrorKind>)
        ensures
            r is Ok,
    {
        Ok(())
    }

    /// Fills `buf` with zeros and returns its length.
    pub fn read(&self, _pos: u64, buf: &mut [u8], _is_blocking: bool) -> (r: Result<usize, ErrorKind>)
        ensures
            r == Ok::<usize, ErrorKind>(old(buf)@.len() as usize),
            final(buf)@.len() == old(buf)@.len(),
            forall|i: int| 0 <= i < final(buf)@.len() ==> final(buf)@[i] == 0,
    {
        let n = buf.len();
        let mut i: usize = 0;
        while i < n
            invariant
                i <= n,
                n == buf@.len(),
                n == old(buf)@.len(),
                forall|j: int| 0 <= j < i ==> buf@[j] == 0,
            decreases n - i,
        {
            buf[i] = 0;
            i += 1;
        }
        Ok(n)
    }

    /// Takes the bytes of `buf` and drops them; returns their number.
    pub fn write(&self, _pos: u64, buf: &[u8], _is_blocking: bool) -> (r: Result<usize, ErrorKind>)
        ensures
            r == Ok::<usize, ErrorKind>(buf@.len() as usize),
    {
        Ok(buf.len())
    }
}

} // verus!
