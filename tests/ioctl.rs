use hybridkv::ioctl::{
    IoctlCommand, CMD_BATCH_PROMOTE, CMD_CONFIG, CMD_DEMOTE, CMD_FLUSH, CMD_INVALIDATE, CMD_PROMOTE, CMD_READ,
    CMD_STATS, IOCTL_MAGIC,
};

#[test]
fn test_command_conversion() {
    let commands = [
        IoctlCommand::Read,
        IoctlCommand::Promote,
        IoctlCommand::BatchPromote,
        IoctlCommand::Demote,
        IoctlCommand::Invalidate,
        IoctlCommand::Stats,
        IoctlCommand::Config,
        IoctlCommand::Flush,
    ];
    for cmd in commands {
        let num = cmd.as_u8();
        let back = IoctlCommand::from_u8(num);
        assert_eq!(Some(cmd), back);
    }
}

#[test]
fn test_invalid_command() {
    assert_eq!(IoctlCommand::from_u8(255), None);
    assert_eq!(IoctlCommand::from_u8(99), None);
}

#[test]
fn test_command_classification() {
    assert!(IoctlCommand::Read.is_readonly());
    assert!(IoctlCommand::Stats.is_readonly());
    assert!(!IoctlCommand::Read.is_write());

    assert!(IoctlCommand::Promote.is_write());
    assert!(IoctlCommand::Demote.is_write());
    assert!(IoctlCommand::Invalidate.is_write());
    assert!(IoctlCommand::Flush.is_write());
    assert!(!IoctlCommand::Promote.is_readonly());

    assert!(IoctlCommand::Config.is_config());
    assert!(!IoctlCommand::Read.is_config());
}

#[test]
fn test_command_names() {
    assert_eq!(IoctlCommand::Read.name(), "READ");
    assert_eq!(IoctlCommand::Promote.name(), "PROMOTE");
    assert_eq!(IoctlCommand::BatchPromote.name(), "BATCH_PROMOTE");
}

#[test]
fn test_command_display() {
    let cmd = IoctlCommand::Read;
    assert_eq!(cmd.to_string(), "READ");
}

#[test]
fn test_magic_number() {
    assert_eq!(IOCTL_MAGIC, b'H');
    assert_eq!(IOCTL_MAGIC, 0x48);
}

#[test]
fn test_command_uniqueness() {
    let numbers = [
        CMD_READ,
        CMD_PROMOTE,
        CMD_BATCH_PROMOTE,
        CMD_DEMOTE,
        CMD_INVALIDATE,
        CMD_STATS,
        CMD_CONFIG,
        CMD_FLUSH,
    ];
    for i in 0..numbers.len() {
        for j in (i + 1)..numbers.len() {
            assert_ne!(numbers[i], numbers[j], "Command {} conflicts with command {}", i, j);
        }
    }
}

#[test]
fn command_codes_follow_the_table() {
    assert_eq!(IoctlCommand::Read.as_u8(), 0);
    assert_eq!(IoctlCommand::Flush.as_u8(), 7);
    assert_eq!(IoctlCommand::from_u8(3), Some(IoctlCommand::Demote));
    assert_eq!(IoctlCommand::from_u8(8), None);
    assert_eq!(IoctlCommand::Invalidate.name(), "INVALIDATE");
}

#[test]
fn device_constants() {
    assert_eq!(hybridkv::ioctl::DEVICE_PATH, "/dev/hybridkv");
    assert_eq!(hybridkv::ioctl::DEVICE_NAME, "hybridkv");
}
