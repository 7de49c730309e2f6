use zeno::codec::{decode, encode, DecodeError};
use zeno::profile::Profile;
use zeno::store::{AddError, OpenError, RemoveError, Store};

fn profile(name: &str, theme_ref: &str) -> Profile {
    Profile::new(name.to_string(), theme_ref.to_string())
}

fn names(store: &Store) -> Vec<String> {
    store.list().into_iter().map(|p| p.name).collect()
}

/// Opens a store from an in-memory "disk"; a missing file is created.
fn open_on(disk: &mut Option<Vec<u8>>, path: &str) -> Result<Store, OpenError> {
    let store = Store::open(path.to_string(), disk.as_deref())?;
    if disk.is_none() {
        *disk = Some(store.encoded());
    }
    Ok(store)
}

fn add_on(store: &mut Store, disk: &mut Option<Vec<u8>>, p: Profile) -> Result<(), AddError> {
    let pending = store.prepare_add(p)?;
    *disk = Some(pending.bytes().to_vec());
    store.commit(pending);
    Ok(())
}

fn remove_on(store: &mut Store, disk: &mut Option<Vec<u8>>, name: &str) -> Result<(), RemoveError> {
    let pending = store.prepare_remove(name)?;
    *disk = Some(pending.bytes().to_vec());
    store.commit(pending);
    Ok(())
}

#[test]
fn open_missing_path_gives_empty_store_and_creates_file() {
    let mut disk = None;
    let store = open_on(&mut disk, "empty/path").unwrap();
    assert!(store.list().is_empty());
    assert_eq!(store.len(), 0);
    assert_eq!(store.path(), "empty/path");
    assert!(disk.is_some());
    let reopened = open_on(&mut disk, "empty/path").unwrap();
    assert!(reopened.list().is_empty());
}

#[test]
fn duplicate_name_is_refused() {
    let mut disk = None;
    let mut store = open_on(&mut disk, "p").unwrap();
    assert_eq!(add_on(&mut store, &mut disk, profile("work", "dark.toml")), Ok(()));
    assert_eq!(
        add_on(&mut store, &mut disk, profile("work", "light.toml")),
        Err(AddError::DuplicateName)
    );
    let list = store.list();
    assert_eq!(list.len(), 1);
    assert_eq!(list[0].name, "work");
    assert_eq!(list[0].theme_ref, "dark.toml");
}

#[test]
fn empty_name_is_refused() {
    let mut disk = None;
    let mut store = open_on(&mut disk, "p").unwrap();
    let before = disk.clone();
    assert_eq!(add_on(&mut store, &mut disk, profile("", "x")), Err(AddError::InvalidName));
    assert!(store.list().is_empty());
    assert_eq!(disk, before);
}

#[test]
fn blank_name_is_refused() {
    let mut disk = None;
    let mut store = open_on(&mut disk, "p").unwrap();
    assert_eq!(add_on(&mut store, &mut disk, profile(" \t\r\n", "x")), Err(AddError::InvalidName));
    assert_eq!(add_on(&mut store, &mut disk, profile("\u{00A0}", "x")), Err(AddError::InvalidName));
    assert_eq!(add_on(&mut store, &mut disk, profile("\u{3000}", "x")), Err(AddError::InvalidName));
    assert_eq!(add_on(&mut store, &mut disk, profile("\u{000B} \u{2028}", "x")), Err(AddError::InvalidName));
    assert!(store.list().is_empty());
    assert_eq!(add_on(&mut store, &mut disk, profile("\u{200B}", "x")), Ok(()));
    remove_on(&mut store, &mut disk, "\u{200B}").unwrap();
    assert_eq!(add_on(&mut store, &mut disk, profile(" a ", "x")), Ok(()));
    assert_eq!(names(&store), vec![" a ".to_string()]);
}

#[test]
fn blank_name_wins_over_duplicate() {
    let mut disk = None;
    let mut store = open_on(&mut disk, "p").unwrap();
    // A blank name can never be stored, so only InvalidName can come back.
    assert_eq!(add_on(&mut store, &mut disk, profile("  ", "x")), Err(AddError::InvalidName));
    assert_eq!(add_on(&mut store, &mut disk, profile("  ", "x")), Err(AddError::InvalidName));
}

#[test]
fn remove_keeps_order_of_the_rest() {
    let mut disk = None;
    let mut store = open_on(&mut disk, "p").unwrap();
    add_on(&mut store, &mut disk, profile("a", "a.toml")).unwrap();
    add_on(&mut store, &mut disk, profile("b", "b.toml")).unwrap();
    add_on(&mut store, &mut disk, profile("c", "c.toml")).unwrap();
    assert_eq!(remove_on(&mut store, &mut disk, "a"), Ok(()));
    assert_eq!(names(&store), vec!["b".to_string(), "c".to_string()]);
    assert_eq!(store.list()[0].theme_ref, "b.toml");
}

#[test]
fn remove_only_entry_after_two_adds() {
    let mut disk = None;
    let mut store = open_on(&mut disk, "p").unwrap();
    add_on(&mut store, &mut disk, profile("a", "1")).unwrap();
    add_on(&mut store, &mut disk, profile("b", "2")).unwrap();
    remove_on(&mut store, &mut disk, "a").unwrap();
    let list = store.list();
    assert_eq!(list.len(), 1);
    assert_eq!(list[0].name, "b");
    assert_eq!(list[0].theme_ref, "2");
}

#[test]
fn remove_twice_gives_not_found() {
    let mut disk = None;
    let mut store = open_on(&mut disk, "p").unwrap();
    add_on(&mut store, &mut disk, profile("x", "t")).unwrap();
    assert_eq!(remove_on(&mut store, &mut disk, "x"), Ok(()));
    assert_eq!(remove_on(&mut store, &mut disk, "x"), Err(RemoveError::NotFound));
    assert!(store.list().is_empty());
}

#[test]
fn remove_missing_name_gives_not_found() {
    let mut disk = None;
    let mut store = open_on(&mut disk, "p").unwrap();
    add_on(&mut store, &mut disk, profile("Work", "t")).unwrap();
    assert_eq!(remove_on(&mut store, &mut disk, "work"), Err(RemoveError::NotFound));
    assert_eq!(names(&store), vec!["Work".to_string()]);
}

#[test]
fn corrupt_file_is_reported() {
    let mut disk = None;
    let mut store = open_on(&mut disk, "p").unwrap();
    add_on(&mut store, &mut disk, profile("work", "dark.toml")).unwrap();
    let mut bytes = disk.clone().unwrap();
    bytes[0] ^= 0xFF;
    assert!(matches!(Store::open("p".to_string(), Some(&bytes)), Err(OpenError::Corrupt)));
    let good = disk.unwrap();
    let truncated = &good[..good.len() - 1];
    assert!(matches!(Store::open("p".to_string(), Some(truncated)), Err(OpenError::Corrupt)));
    assert!(matches!(Store::open("p".to_string(), Some(&[])), Err(OpenError::Corrupt)));
}

#[test]
fn file_with_duplicate_names_is_corrupt() {
    let dup = vec![profile("a", "1"), profile("a", "2")];
    let bytes = encode(&dup);
    assert_eq!(decode(&bytes).unwrap().len(), 2);
    assert!(matches!(Store::open("p".to_string(), Some(&bytes)), Err(OpenError::Corrupt)));
}

#[test]
fn file_with_blank_name_is_corrupt() {
    let bytes = encode(&[profile(" ", "1")]);
    assert!(matches!(Store::open("p".to_string(), Some(&bytes)), Err(OpenError::Corrupt)));
}

#[test]
fn reopen_after_changes_gives_same_entries() {
    let mut disk = None;
    let mut store = open_on(&mut disk, "p").unwrap();
    add_on(&mut store, &mut disk, profile("a", "1")).unwrap();
    add_on(&mut store, &mut disk, profile("b", "2")).unwrap();
    let reopened = open_on(&mut disk, "p").unwrap();
    assert_eq!(names(&reopened), vec!["a".to_string(), "b".to_string()]);
    remove_on(&mut store, &mut disk, "b").unwrap();
    let reopened = open_on(&mut disk, "p").unwrap();
    assert_eq!(names(&reopened), vec!["a".to_string()]);
    assert_eq!(reopened.list()[0].theme_ref, "1");
}

#[test]
fn write_failure_keeps_state() {
    let mut disk = None;
    let mut store = open_on(&mut disk, "p").unwrap();
    add_on(&mut store, &mut disk, profile("a", "1")).unwrap();
    let on_disk = disk.clone();
    // The write of the new state fails: the pending state is dropped.
    let pending = store.prepare_add(profile("b", "2")).unwrap();
    drop(pending);
    assert_eq!(names(&store), vec!["a".to_string()]);
    assert_eq!(disk, on_disk);
    assert_eq!(Some(store.encoded()), disk);
    let pending = store.prepare_remove("a").unwrap();
    drop(pending);
    assert_eq!(names(&store), vec!["a".to_string()]);
    assert_eq!(Some(store.encoded()), disk);
}

#[test]
fn added_names_stay_unique() {
    let mut disk = None;
    let mut store = open_on(&mut disk, "p").unwrap();
    for name in ["a", "b", "a", "c", "b", "d"] {
        let _ = add_on(&mut store, &mut disk, profile(name, "t"));
    }
    let list = names(&store);
    assert_eq!(list, vec!["a", "b", "c", "d"]);
}

#[test]
fn find_by_name_is_exact() {
    let mut disk = None;
    let mut store = open_on(&mut disk, "p").unwrap();
    add_on(&mut store, &mut disk, profile("work", "dark.toml")).unwrap();
    add_on(&mut store, &mut disk, profile("home", "light.toml")).unwrap();
    let found = store.find_by_name("home").unwrap();
    assert_eq!(found.name, "home");
    assert_eq!(found.theme_ref, "light.toml");
    assert!(store.find_by_name("Home").is_none());
    assert!(store.find_by_name("wor").is_none());
}

#[test]
fn pending_bytes_decode_to_new_state() {
    let mut disk = None;
    let store = open_on(&mut disk, "p").unwrap();
    let pending = store.prepare_add(profile("a", "1")).unwrap();
    let decoded = decode(pending.bytes()).unwrap();
    assert_eq!(decoded.len(), 1);
    assert_eq!(decoded[0].name, "a");
    assert_eq!(decoded[0].theme_ref, "1");
    assert_eq!(decode(&[1, 2, 3]).unwrap_err(), DecodeError::Malformed);
}
