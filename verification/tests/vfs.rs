use std::cmp::Ordering;

use pulseos::error::AxError;
use pulseos::vfs::dir::{
    check_replace, check_unlink, creation_of, has_children, open_file, DirError, DirNode,
    LookupStep, OpenOptions, OpenStep, RenameTarget,
};
use pulseos::vfs::entry::{Entry, EntryTree};
use pulseos::vfs::forget::DirTable;
use pulseos::vfs::inmem::{
    cmp_file_name, read_dir_impl, DirBuffer, FileName, InMemDir, InMemEntry,
};
use pulseos::vfs::location::PathStep;
use pulseos::vfs::mount::{Location, MountTable};
use pulseos::vfs::node::{
    update_metadata_impl, Metadata, MetadataUpdate, NodePermission, NodeType, Timestamp, SET_GID,
};
use pulseos::vfs::propagation::PropagationMode;

#[test]
fn cache_access_waits_for_contended_lock() {
    let mut dir = DirNode::new(true);
    let cached = 2;
    let replacement = 3;
    assert_eq!(dir.insert_cache("child".to_string(), cached), None);

    assert_eq!(dir.lookup_cache("child"), Some(cached));

    assert_eq!(dir.insert_cache("child".to_string(), replacement), Some(cached));
    assert_eq!(dir.lookup_cache("child"), Some(replacement));
}

#[test]
fn forget_waits_for_and_clears_contended_descendants() {
    let mut root = DirNode::new(true);
    let mut child = DirNode::new(true);
    let mut other = DirNode::new(true);
    root.insert_cache("child".to_string(), 1);
    child.insert_cache("grandchild".to_string(), 2);
    other.insert_cache("kept".to_string(), 2);
    let mut table =
        DirTable { dirs: vec![Some(root), Some(child), Some(DirNode::new(true)), Some(other), None] };

    table.forget(0);

    let cached = |d: usize, name: &str| table.dirs[d].as_ref().and_then(|n| n.lookup_cache(name));
    assert_eq!(cached(0, "child"), None);
    assert_eq!(cached(1, "grandchild"), None);
    assert_eq!(cached(3, "kept"), Some(2));
}

#[test]
fn directories_answer_from_their_cache() {
    let mut dir = DirNode::new(true);
    assert_eq!(dir.lookup("a", 255), LookupStep::Ask);
    assert_eq!(dir.looked_up("a", Ok(5)), Ok(5));
    assert_eq!(dir.lookup("a", 255), LookupStep::Done(Ok(5)));
    assert_eq!(
        dir.lookup("abcd", 3),
        LookupStep::Done(Err(DirError::Vfs(AxError::NameTooLong)))
    );
    assert_eq!(dir.looked_up("b", Err(30)), Err(DirError::Fs { code: 30 }));
    assert_eq!(dir.lookup("b", 255), LookupStep::Ask);
    assert_eq!(dir.linked("b", Ok(6)), Ok(6));
    assert_eq!(dir.unlinked("a", Err(13)), Err(DirError::Fs { code: 13 }));
    assert_eq!(dir.unlinked("a", Ok(())), Ok(Some(5)));
    assert_eq!(dir.unlinked("a", Ok(())), Ok(None));
    let mut plain = DirNode::new(false);
    assert_eq!(plain.looked_up("a", Ok(5)), Ok(5));
    assert_eq!(plain.lookup("a", 255), LookupStep::Ask);
    assert_eq!(plain.linked("c", Ok(7)), Ok(7));
    assert_eq!(plain.lookup_locked("c"), LookupStep::Ask);
    assert_eq!(plain.insert_cache("d".to_string(), 8), None);
    assert_eq!(plain.lookup_cache("d"), None);
    assert_eq!(dir.renamed_within("b", "c"), (Some(6), None));
    dir.insert_cache("x".to_string(), 1);
    let mut to = DirNode::new(true);
    to.insert_cache("y".to_string(), 2);
    assert_eq!(dir.renamed_to("x", &mut to, "y"), (Some(1), Some(2)));
    assert_eq!(to.lookup_cache("y"), None);
}

#[test]
fn removal_and_replacement_need_the_right_type() {
    assert_eq!(check_unlink(true, true), Ok(()));
    assert_eq!(check_unlink(true, false), Err(AxError::IsADirectory));
    assert_eq!(check_unlink(false, true), Err(AxError::NotADirectory));
    let dst = |is_dir, has_children| Some(RenameTarget { is_dir, has_children });
    assert_eq!(check_replace(true, None), Ok(()));
    assert_eq!(
        check_replace(true, dst(true, Ok(true))),
        Err(DirError::Vfs(AxError::DirectoryNotEmpty))
    );
    assert_eq!(check_replace(true, dst(true, Ok(false))), Ok(()));
    assert_eq!(check_replace(true, dst(true, Err(4))), Err(DirError::Fs { code: 4 }));
    assert_eq!(
        check_replace(false, dst(true, Ok(false))),
        Err(DirError::Vfs(AxError::IsADirectory))
    );
    assert_eq!(
        check_replace(true, dst(false, Ok(false))),
        Err(DirError::Vfs(AxError::NotADirectory))
    );
    assert_eq!(check_replace(false, dst(false, Ok(false))), Ok(()));
    let dots = vec![".".to_string(), "..".to_string()];
    assert!(!has_children(&dots));
    assert!(has_children(&vec![".".to_string(), "...".to_string()]));
}

fn options() -> OpenOptions {
    OpenOptions::new(NodePermission { bits: 0o644 })
}

#[test]
fn missing_files_are_created_on_request() {
    assert_eq!(open_file(Ok(3), &options()), OpenStep::Done(Ok(3)));
    let new = OpenOptions { create_new: true, ..options() };
    assert_eq!(
        open_file(Ok(3), &new),
        OpenStep::Done(Err(DirError::Vfs(AxError::AlreadyExists)))
    );
    let create = OpenOptions { create: true, ..options() };
    assert_eq!(open_file(Err(30), &create), OpenStep::Create);
    assert_eq!(open_file(Err(-2), &create), OpenStep::Create);
    assert_eq!(open_file(Err(2), &create), OpenStep::Done(Err(DirError::Fs { code: 2 })));
    assert_eq!(open_file(Err(-13), &create), OpenStep::Done(Err(DirError::Fs { code: -13 })));
    assert_eq!(open_file(Err(-2), &options()), OpenStep::Done(Err(DirError::Fs { code: -2 })));
}

#[test]
fn new_files_take_the_group_of_their_directory() {
    let user = OpenOptions { user: Some((7, 8)), ..options() };
    let plain = NodePermission { bits: 0o755 };
    let setgid = NodePermission { bits: 0o755 | SET_GID };
    let (mode, update) = creation_of(&user, Some((plain, 9)));
    assert_eq!(mode.bits, 0o644);
    assert_eq!(update.unwrap().owner, Some((7, 8)));
    let (mode, update) = creation_of(&user, Some((setgid, 9)));
    assert_eq!(mode.bits, 0o644);
    assert_eq!(update.unwrap().owner, Some((7, 9)));
    let dir = OpenOptions { node_type: NodeType::Directory, ..user };
    assert_eq!(creation_of(&dir, Some((setgid, 9))).0.bits, 0o2644);
    assert_eq!(creation_of(&options(), None).1, None);
}

#[test]
fn metadata_changes_where_asked() {
    let now = Timestamp { secs: 5, nanos: 6 };
    let old = Timestamp { secs: 0, nanos: 0 };
    let mut m = Metadata {
        device: 0,
        inode: 1,
        node_type: NodeType::RegularFile,
        mode: NodePermission { bits: 0o600 },
        uid: 1,
        gid: 2,
        atime: old,
        mtime: old,
    };
    let update = MetadataUpdate {
        mode: Some(NodePermission { bits: 0o644 }),
        owner: None,
        atime: None,
        mtime: Some(now),
    };
    update_metadata_impl(&mut m, update);
    assert_eq!((m.mode.bits, m.uid, m.gid), (0o644, 1, 2));
    assert_eq!((m.atime, m.mtime), (old, now));
}

#[test]
fn names_are_ordered_with_dots_first() {
    assert_eq!(cmp_file_name(".", ".."), Ordering::Less);
    assert_eq!(cmp_file_name("..", "!"), Ordering::Less);
    assert_eq!(cmp_file_name("b", "ab"), Ordering::Greater);
    assert_eq!(cmp_file_name("a", "ab"), Ordering::Less);
    assert_eq!(cmp_file_name("a", "a"), Ordering::Equal);
}

#[test]
fn directory_is_read_until_the_sink_is_full() {
    let entry = |name: &str, ino: u64| InMemEntry {
        name: FileName(name.to_string()),
        ino,
        node_type: NodeType::RegularFile,
    };
    let dir = InMemDir { entries: vec![entry(".", 1), entry("a", 2), entry("b", 3)] };
    let mut sink = DirBuffer::new(1);
    assert_eq!(read_dir_impl(&dir, 1, &mut sink), 1);
    assert_eq!(sink.records[0].name, "a".to_string());
    assert_eq!((sink.records[0].ino, sink.records[0].offset), (2, 2));
    let mut rest = DirBuffer::new(9);
    assert_eq!(read_dir_impl(&dir, 1, &mut rest), 2);
    assert_eq!(read_dir_impl(&dir, 3, &mut rest), 0);
    assert_eq!(read_dir_impl(&dir, u64::MAX, &mut rest), 0);
    assert_eq!(rest.records.len(), 2);
}

fn entry(inode: u64, fs: usize, parent: Option<usize>, is_dir: bool, name: &str) -> Entry {
    Entry { inode, fs, parent, is_dir, name: name.to_string() }
}

/// A root with the directories a, a/b and c and the file f, and the root of
/// another file system with the directory d.
struct Tree {
    table: MountTable,
    root: usize,
    a: usize,
    b: usize,
    c: usize,
    f: usize,
    other: usize,
    d: usize,
    main: usize,
}

fn tree() -> Tree {
    let mut table = MountTable::new();
    let root = table.add_entry(entry(1, 0, None, true, ""));
    let a = table.add_entry(entry(2, 0, Some(root), true, "a"));
    let b = table.add_entry(entry(3, 0, Some(a), true, "b"));
    let c = table.add_entry(entry(4, 0, Some(root), true, "c"));
    let f = table.add_entry(entry(5, 0, Some(root), false, "f"));
    let other = table.add_entry(entry(1, 1, None, true, ""));
    let d = table.add_entry(entry(2, 1, Some(other), true, "d"));
    let main = table.new_root(root);
    Tree { table, root, a, b, c, f, other, d, main }
}

fn at(mountpoint: usize, entry: usize) -> Location {
    Location { mountpoint, entry }
}

#[test]
fn ancestors_are_found() {
    let mut tree = EntryTree::new();
    let root = tree.push(entry(1, 0, None, true, ""));
    let a = tree.push(entry(2, 0, Some(root), true, "a"));
    let b = tree.push(entry(3, 0, Some(a), true, "b"));
    assert_eq!(tree.len(), 3);
    assert!(tree.is_ancestor_of(root, b));
    assert!(!tree.is_ancestor_of(b, root));
    assert_eq!(tree.key(b), (3, 0));
    assert_eq!(tree.get(b).inode, 3);
}

#[test]
fn mounted_file_system_covers_its_directory() {
    let mut t = tree();
    let m = t.table.mount(at(t.main, t.a), t.other).unwrap();
    assert_eq!(t.table.mount(at(t.main, t.a), t.other), Err(AxError::ResourceBusy));
    assert_eq!(t.table.mount(at(t.main, t.f), t.other), Err(AxError::NotADirectory));
    assert!(t.table.is_mountpoint(at(t.main, t.a)));
    assert_eq!(t.table.resolve_mounted_location(at(t.main, t.a)), at(m, t.other));
    assert_eq!(
        t.table.lookup_no_follow(at(t.main, t.root), PathStep::Name { entry: t.a }),
        at(m, t.other)
    );
    assert_eq!(
        t.table.lookup_no_follow(at(m, t.other), PathStep::DotDot),
        at(t.main, t.root)
    );
    assert_eq!(
        t.table.absolute_path(at(m, t.d)),
        vec!["a".to_string(), "d".to_string()]
    );
    assert_eq!(t.table.name(at(m, t.other)), "a".to_string());
    assert_eq!(t.table.location(m), Some(at(t.main, t.a)));
    assert!(t.table.is_root_of_mount(at(m, t.other)));
    assert!(t.table.is_root(at(t.main, t.root)) && !t.table.is_root(at(m, t.other)));
    assert!(t.table.is_mount_ancestor_of(t.main, m));
    assert_eq!(t.table.effective_mountpoint(t.main), t.main);
    assert_eq!(t.table.unmount(at(m, t.d)), Err(AxError::InvalidInput));
    assert_eq!(t.table.unmount(at(m, t.other)), Ok(()));
    assert!(!t.table.is_mountpoint(at(t.main, t.a)));
    assert_ne!(t.table.device(t.main), t.table.device(m));
}

#[test]
fn mount_with_mounts_below_is_busy() {
    let mut t = tree();
    let m = t.table.mount(at(t.main, t.a), t.other).unwrap();
    let below = t.table.mount(at(m, t.d), t.root).unwrap();
    assert_eq!(t.table.unmount(at(m, t.other)), Err(AxError::ResourceBusy));
    assert_eq!(t.table.unmount_all(at(m, t.other)), Ok(()));
    assert!(!t.table.is_mountpoint(at(t.main, t.a)));
    assert!(!t.table.is_mountpoint(at(m, t.d)));
    t.table.release(below);
    assert!(!t.table.is_alive(below));
}

#[test]
fn bound_directory_stands_twice() {
    let mut t = tree();
    let bound = t.table.mount_bind(at(t.main, t.c), at(t.main, t.a)).unwrap();
    assert_eq!(t.table.root_location(bound), at(bound, t.a));
    assert_eq!(t.table.resolve_mounted_location(at(t.main, t.c)), at(bound, t.a));
    assert_eq!(
        t.table.mount_bind(at(t.main, t.f), at(t.main, t.a)),
        Err(AxError::NotADirectory)
    );
    assert_eq!(
        t.table.mount_bind(at(t.main, t.c), at(t.main, t.a)),
        Err(AxError::ResourceBusy)
    );
    t.table.make_unbindable(t.main);
    assert_eq!(
        t.table.mount_bind(at(t.main, t.b), at(t.main, t.a)),
        Err(AxError::PermissionDenied)
    );
}

#[test]
fn mounts_are_moved() {
    let mut t = tree();
    let m = t.table.mount(at(t.main, t.a), t.other).unwrap();
    assert_eq!(t.table.move_mount(at(m, t.d), at(t.main, t.c)), Err(AxError::InvalidInput));
    assert_eq!(t.table.move_mount(at(m, t.other), at(t.main, t.f)), Err(AxError::NotADirectory));
    assert_eq!(t.table.move_mount(at(m, t.other), at(t.main, t.c)), Ok(m));
    assert_eq!(t.table.location(m), Some(at(t.main, t.c)));
    assert!(!t.table.is_mountpoint(at(t.main, t.a)));
    assert!(t.table.is_mountpoint(at(t.main, t.c)));
}

#[test]
fn propagation_modes_change() {
    let mut t = tree();
    assert_eq!(t.table.propagation(t.main), PropagationMode::Private);
    let g = t.table.make_shared(t.main);
    assert_eq!(t.table.propagation(t.main), PropagationMode::Shared { peer_group: g });
    assert_eq!(t.table.make_shared(t.main), g);
    t.table.make_slave(t.main);
    assert_eq!(t.table.propagation(t.main), PropagationMode::Slave { master_group: g });
    assert_eq!(t.table.slaves_of_group(g), vec![t.main]);
    let h = t.table.make_shared(t.main);
    assert_eq!(
        t.table.propagation(t.main),
        PropagationMode::SharedAndSlave { peer_group: h, master_group: g }
    );
    assert!(t.table.propagation(t.main).is_shared() && t.table.propagation(t.main).is_slave());
    t.table.make_private(t.main);
    assert_eq!(t.table.propagation(t.main), PropagationMode::Private);
    assert!(t.table.slaves_of_group(g).is_empty());
    let m = t.table.mount(at(t.main, t.a), t.other).unwrap();
    assert!(t.table.make_rshared(t.main));
    assert!(t.table.propagation(m).is_shared());
    assert!(t.table.make_rslave(t.main));
    assert!(t.table.propagation(m).is_slave());
    assert!(t.table.make_runbindable(t.main));
    assert_eq!(t.table.propagation(m), PropagationMode::Unbindable);
    assert!(t.table.make_rprivate(t.main));
    assert_eq!(t.table.propagation(m), PropagationMode::Private);
}

#[test]
fn mount_below_itself_is_not_changed_for_ever() {
    let mut t = tree();
    let outer = t.table.mount(at(t.main, t.a), t.other).unwrap();
    let inner = t.table.mount(at(outer, t.d), t.root).unwrap();
    assert!(t.table.make_rshared(t.main));
    assert!(t.table.propagation(inner).is_shared());
    assert_eq!(t.table.move_mount(at(outer, t.other), at(inner, t.b)), Ok(outer));
    assert!(!t.table.make_rprivate(outer));
    assert!(t.table.make_rprivate(t.main));
}

#[test]
fn new_mounts_spread_to_peers() {
    let mut t = tree();
    let group = t.table.make_shared(t.main);
    let peer = t.table.mount_bind(at(t.main, t.c), at(t.main, t.root)).unwrap();
    assert_eq!(t.table.propagation(peer), PropagationMode::Shared { peer_group: group });
    assert_eq!(t.table.peer_group_members(group, t.main), vec![peer]);
    let new = t.table.mount(at(t.main, t.a), t.other).unwrap();
    let spread = t.table.propagate_new_mount(t.main, None, new);
    assert!(spread.complete);
    assert_eq!(spread.created.len(), 1);
    let (under, copy) = spread.created[0];
    assert_eq!(under, peer);
    assert_eq!(t.table.location(copy), Some(at(peer, t.a)));
    assert_eq!(t.table.collect_propagate_unmount(new), vec![copy]);
}

#[test]
fn links_and_renames_stay_on_their_mount() {
    let mut t = tree();
    let m = t.table.mount(at(t.main, t.a), t.other).unwrap();
    assert_eq!(t.table.check_link(at(t.main, t.c), at(m, t.d)), Err(AxError::CrossesDevices));
    assert_eq!(t.table.check_link(at(t.main, t.c), at(t.main, t.f)), Ok(()));
    assert_eq!(t.table.check_rename(at(t.main, t.c), at(m, t.d)), Err(AxError::CrossesDevices));
    assert_eq!(
        t.table.check_rename(at(t.main, t.a), at(t.main, t.b)),
        Err(AxError::InvalidInput)
    );
    assert_eq!(
        t.table.check_rename(at(t.main, t.c), at(t.main, t.f)),
        Err(AxError::NotADirectory)
    );
    assert_eq!(t.table.check_rename(at(t.main, t.c), at(t.main, t.a)), Ok(()));
    assert_eq!(t.table.check_is_dir(at(t.main, t.f)), Err(AxError::NotADirectory));
    assert_eq!(t.table.check_is_dir(at(t.main, t.c)), Ok(()));
    t.table.set_readonly(m, true);
    t.table.set_flags(m, 5);
    assert!(t.table.is_readonly(m) && !t.table.is_readonly(t.main));
    assert_eq!(t.table.get_flags(m), 5);
    assert_eq!(t.table.parent(at(t.main, t.root)), None);
    assert_eq!(t.table.parent(at(t.main, t.b)), Some(at(t.main, t.a)));
}
