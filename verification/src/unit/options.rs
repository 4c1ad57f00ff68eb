//! Options of the storage unit.

use vstd::prelude::*;

verus! {

/// How files are read and written.
#[derive(Debug, Clone, Copy, PartialEq, Eq, Structural)]
pub enum IoMode {
    Basic,
    Direct,
    Mmap,
}

impl Default for IoMode {
    fn default() -> (mode: IoMode)
        ensures
            mode == IoMode::Basic,
    {
        IoMode::Basic
    }
}

/// The address of a machine.
#[derive(Debug, Clone, Copy, PartialEq, Eq)]
pub enum IpAddress {
    V4([u8; 4]),
    V6 { octets: [u8; 16], flow_info: u32, scope_id: u32 },
}

/// An address to listen on.
#[derive(Debug, Clone, Copy, PartialEq, Eq)]
pub struct BindAddress {
    pub ip: IpAddress,
    pub port: u16,
}

impl BindAddress {
    /// Every address of the machine, on a port.
    pub open spec fn is_any(&self, port: u16) -> bool {
        &&& self.ip matches IpAddress::V4(octets)
        &&& octets@ == seq![0u8, 0, 0, 0]
        &&& self.port == port
    }
}

/// Where the unit serves.
#[derive(Debug)]
pub struct ServerOptions {
    pub bind_address: BindAddress,
    pub advertise_address: Option<String>,
}

/// Where the log is kept.
#[derive(Debug)]
pub struct WalOptions {
    pub dir: String,
}

/// Where the storage is kept.
#[derive(Debug)]
pub struct StorageOptions {
    pub dir: String,
}

/// Where segments are kept.
#[derive(Debug)]
pub struct SegmentOptions {
    pub dir: String,
}

/// What is reported of the unit's work.
#[derive(Debug)]
pub struct LogOptions {
    pub level: String,
}

/// The options of a unit.
#[derive(Debug)]
pub struct UnitOptions {
    pub io_mode: IoMode,
    pub server: ServerOptions,
    pub wal: WalOptions,
    pub storage: StorageOptions,
    pub segments: SegmentOptions,
    pub log: LogOptions,
}

/// Every address of the machine, on the unit's port.
pub fn default_bind_address() -> (address: BindAddress)
    ensures
        address.is_any(7070),
{
    BindAddress { ip: IpAddress::V4([0, 0, 0, 0]), port: 7070 }
}

pub fn default_wal_dir() -> (dir: String)
    ensures
        dir@ == "/data/wal"@,
{
    String::from_str("/data/wal")
}

pub fn default_storage_dir() -> (dir: String)
    ensures
        dir@ == "/data/storage"@,
{
    String::from_str("/data/storage")
}

pub fn default_segments_dir() -> (dir: String)
    ensures
        dir@ == "/data/segments"@,
{
    String::from_str("/data/segments")
}

pub fn default_log_level() -> (level: String)
    ensures
        level@ == "info"@,
{
    String::from_str("info")
}

impl Default for ServerOptions {
    fn default() -> (options: ServerOptions)
        ensures
            options.bind_address.is_any(7070),
            options.advertise_address is None,
    {
        ServerOptions { bind_address: default_bind_address(), advertise_address: None }
    }
}

impl Default for WalOptions {
    fn default() -> (options: WalOptions)
        ensures
            options.dir@ == "/data/wal"@,
    {
        WalOptions { dir: default_wal_dir() }
    }
}

impl Default for StorageOptions {
    fn default() -> (options: StorageOptions)
        ensures
            options.dir@ == "/data/storage"@,
    {
        StorageOptions { dir: default_storage_dir() }
    }
}

impl Default for SegmentOptions {
    fn default() -> (options: SegmentOptions)
        ensures
            options.dir@ == "/data/segments"@,
    {
        SegmentOptions { dir: default_segments_dir() }
    }
}

impl Default for LogOptions {
    fn default() -> (options: LogOptions)
        ensures
            options.level@ == "info"@,
    {
        LogOptions { level: default_log_level() }
    }
}

impl Default for UnitOptions {
    fn default() -> (options: UnitOptions)
        ensures
            options.io_mode == IoMode::Basic,
            options.server.bind_address.is_any(7070),
            options.server.advertise_address is None,
            options.wal.dir@ == "/data/wal"@,
            options.storage.dir@ == "/data/storage"@,
            options.segments.dir@ == "/data/segments"@,
            options.log.level@ == "info"@,
    {
        UnitOptions {
            io_mode: IoMode::Basic,
            server: ServerOptions::default(),
            wal: WalOptions::default(),
            storage: StorageOptions::default(),
            segments: SegmentOptions::default(),
            log: LogOptions::default(),
        }
    }
}

} // verus!
