use vstd::prelude::*;

verus! {

/// ioctl magic number of the sidecar device: ASCII `H`.
pub const IOCTL_MAGIC: u8 = 0x48;

/// Device file of the kernel sidecar.
pub const DEVICE_PATH: &'static str = "/dev/hybridkv";

/// Device name of the kernel sidecar.
pub const DEVICE_NAME: &'static str = "hybridkv";

/// Command number of READ.
pub const CMD_READ: u8 = 0;
/// Command number of PROMOTE.
pub const CMD_PROMOTE: u8 = 1;
/// Command number of BATCH_PROMOTE.
pub const CMD_BATCH_PROMOTE: u8 = 2;
/// Command number of DEMOTE.
pub const CMD_DEMOTE: u8 = 3;
/// Command number of INVALIDATE.
pub const CMD_INVALIDATE: u8 = 4;
/// Command number of STATS.
pub const CMD_STATS: u8 = 5;
/// Command number of CONFIG.
pub const CMD_CONFIG: u8 = 6;
/// Command number of FLUSH.
pub const CMD_FLUSH: u8 = 7;

/// The commands of the sidecar device.
#[derive(Debug, Clone, Copy, PartialEq, Eq, Structural)]
pub enum IoctlCommand {
    /// Read a value from the kernel cache.
    Read,
    /// Promote one entry into the kernel cache.
    Promote,
    /// Promote several entries in one call.
    BatchPromote,
    /// Remove an entry.
    Demote,
    /// Mark an entry stale.
    Invalidate,
    /// Fetch statistics.
    Stats,
    /// Update the runtime configuration.
    Config,
    /// Drop every entry.
    Flush,
}

impl IoctlCommand {
    /// The command number of each command.
    pub open spec fn code(self) -> u8 {
        match self {
            IoctlCommand::Read => CMD_READ,
            IoctlCommand::Promote => CMD_PROMOTE,
            IoctlCommand::BatchPromote => CMD_BATCH_PROMOTE,
            IoctlCommand::Demote => CMD_DEMOTE,
            IoctlCommand::Invalidate => CMD_INVALIDATE,
            IoctlCommand::Stats => CMD_STATS,
            IoctlCommand::Config => CMD_CONFIG,
            IoctlCommand::Flush => CMD_FLUSH,
        }
    }

    /// Converts the command to its number.
    pub fn as_u8(self) -> (r: u8)
        ensures
            r == self.code(),
    {
        match self {
            IoctlCommand::Read => CMD_READ,
            IoctlCommand::Promote => CMD_PROMOTE,
            IoctlCommand::BatchPromote => CMD_BATCH_PROMOTE,
            IoctlCommand::Demote => CMD_DEMOTE,
            IoctlCommand::Invalidate => CMD_INVALIDATE,
            IoctlCommand::Stats => CMD_STATS,
            IoctlCommand::Config => CMD_CONFIG,
            IoctlCommand::Flush => CMD_FLUSH,
        }
    }

    /// Returns the command with number `value`, if there is one.
    pub fn from_u8(value: u8) -> (r: Option<IoctlCommand>)
        ensures
            value <= CMD_FLUSH ==> r.is_some() && r.unwrap().code() == value,
            value > CMD_FLUSH ==> r.is_none(),
    {
        match value {
            CMD_READ => Some(IoctlCommand::Read),
            CMD_PROMOTE => Some(IoctlCommand::Promote),
            CMD_BATCH_PROMOTE => Some(IoctlCommand::BatchPromote),
            CMD_DEMOTE => Some(IoctlCommand::Demote),
            CMD_INVALIDATE => Some(IoctlCommand::Invalidate),
            CMD_STATS => Some(IoctlCommand::Stats),
            CMD_CONFIG => Some(IoctlCommand::Config),
            CMD_FLUSH => Some(IoctlCommand::Flush),
            _ => None,
        }
    }

    /// The human-readable name of each command.
    pub open spec fn spec_name(self) -> &'static str {
        match self {
            IoctlCommand::Read => "READ",
            IoctlCommand::Promote => "PROMOTE",
            IoctlCommand::BatchPromote => "BATCH_PROMOTE",
            IoctlCommand::Demote => "DEMOTE",
            IoctlCommand::Invalidate => "INVALIDATE",
            IoctlCommand::Stats => "STATS",
            IoctlCommand::Config => "CONFIG",
            IoctlCommand::Flush => "FLUSH",
        }
    }

    /// Returns the human-readable name of the command.
    pub fn name(self) -> (r: &'static str)
        ensures
            r@ == self.spec_name()@,
    {
        match self {
            IoctlCommand::Read => "READ",
            IoctlCommand::Promote => "PROMOTE",
            IoctlCommand::BatchPromote => "BATCH_PROMOTE",
            IoctlCommand::Demote => "DEMOTE",
            IoctlCommand::Invalidate => "INVALIDATE",
            IoctlCommand::Stats => "STATS",
            IoctlCommand::Config => "CONFIG",
            IoctlCommand::Flush => "FLUSH",
        }
    }

    /// Returns the name of the command as an owned string.
    pub fn to_string(self) -> (r: String)
        ensures
            r@ == self.spec_name()@,
    {
        self.name().to_owned()
    }

    /// True for the commands that leave the cache unchanged.
    pub fn is_readonly(self) -> (r: bool)
        ensures
            r == (self == IoctlCommand::Read || self == IoctlCommand::Stats),
    {
        matches!(self, IoctlCommand::Read | IoctlCommand::Stats)
    }

    /// True for the commands that change the cache's contents.
    pub fn is_write(self) -> (r: bool)
        ensures
            r == (self == IoctlCommand::Promote || self == IoctlCommand::BatchPromote
                || self == IoctlCommand::Demote || self == IoctlCommand::Invalidate
                || self == IoctlCommand::Flush),
    {
        matches!(
            self,
            IoctlCommand::Promote | IoctlCommand::BatchPromote | IoctlCommand::Demote
                | IoctlCommand::Invalidate | IoctlCommand::Flush
        )
    }

    /// True for the configuration command.
    pub fn is_config(self) -> (r: bool)
        ensures
            r == (self == IoctlCommand::Config),
    {
        matches!(self, IoctlCommand::Config)
    }
}

} // verus!
