use relay_core::fs::Name;
use relay_core::vfs::{render_cwd_path, Cwd, VfsError};

#[test]
fn cwd_rendering_maps_capacity_reservation_failure_to_allocation() {
    let cwd = Cwd {
        components: vec![Name::new(b"docs").unwrap()],
    };

    assert_eq!(
        render_cwd_path(&cwd, |_, _| Err(())),
        Err(VfsError::Allocation)
    );
}

#[test]
fn cwd_rendering_joins_names_with_slashes() {
    let cwd = Cwd {
        components: vec![Name::new(b"docs").unwrap(), Name::new(b"a b").unwrap()],
    };
    let reserve = |bytes: &mut Vec<u8>, len: usize| bytes.try_reserve(len).map_err(|_| ());
    assert_eq!(render_cwd_path(&cwd, reserve), Ok(b"/docs/a b".to_vec()));
    let root = Cwd { components: vec![] };
    assert_eq!(render_cwd_path(&root, reserve), Ok(b"/".to_vec()));
}
