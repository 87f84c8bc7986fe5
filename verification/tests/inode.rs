use relay_core::ext2::inode::Inode;
use relay_core::ext2::on_disk;
use relay_core::ext2::Ext2Error;
use relay_core::fs::NodeKind;

const S_IFREG: u16 = 0x8000;
const S_IFDIR: u16 = 0x4000;

fn inode_with_mode(mode: u16) -> Inode {
    let mut bytes = [0; 256];
    bytes[on_disk::INODE_MODE..on_disk::INODE_MODE + 2].copy_from_slice(&mode.to_le_bytes());
    Inode { bytes }
}

#[test]
fn metadata_rejects_bad_inode_mode_without_panicking() {
    for bad in [0x0000_u16, 0xa000_u16, 0x2000_u16, 0xffff_u16] {
        let inode = inode_with_mode(bad);
        assert_eq!(
            inode.metadata(),
            Err(Ext2Error::CorruptMetadata {
                field: "inode_mode"
            }),
            "bad mode {bad:#06x} must return CorruptMetadata",
        );
    }
}

#[test]
fn metadata_reports_regular_and_directory_kinds() {
    let regular = inode_with_mode(S_IFREG | 0o644);
    let metadata = regular.metadata().unwrap();
    assert_eq!(metadata.kind, NodeKind::Regular);
    assert_eq!(metadata.mode, 0o644);

    let dir = inode_with_mode(S_IFDIR | 0o755);
    let metadata = dir.metadata().unwrap();
    assert_eq!(metadata.kind, NodeKind::Directory);
    assert_eq!(metadata.mode, 0o755);
}
