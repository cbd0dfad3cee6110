use shortcut_sync::registry::{Registry, RegistryError};

fn names(r: &Registry) -> Vec<String> {
    r.list().iter().map(|s| s.name.clone()).collect()
}

#[test]
fn add_then_list_has_exactly_one_new_entry() {
    let mut r = Registry::empty();
    let (id, _doc) = r.add("Save".to_string(), vec!["Ctrl+S".to_string()]);
    let list = r.list();
    assert_eq!(list.len(), 1);
    assert_eq!(list[0].id, id);
    assert_eq!(list[0].name, "Save");
    assert_eq!(list[0].sequence, vec!["Ctrl+S".to_string()]);

    let (id2, _doc) = r.add("Open".to_string(), vec!["Ctrl+O".to_string()]);
    assert_ne!(id, id2, "a fresh id is never one already present");
    let list = r.list();
    assert_eq!(list.len(), 2);
    assert_eq!(list[1].id, id2);
    assert_eq!(list[1].name, "Open");
}

#[test]
fn update_unknown_id_is_not_found_and_changes_nothing() {
    let mut r = Registry::empty();
    let (_id, doc_before) = r.add("Save".to_string(), vec!["Ctrl+S".to_string()]);
    let sub = r.subscribe();
    let res = r.update(9999, "X".to_string(), vec![]);
    assert_eq!(res.unwrap_err(), RegistryError::NotFound);
    assert_eq!(names(&r), vec!["Save".to_string()]);
    assert_eq!(r.document(), doc_before, "no persistence change on NotFound");
    assert!(r.read_next(sub).is_none(), "no publish on NotFound");
}

#[test]
fn delete_unknown_id_is_not_found_and_changes_nothing() {
    let mut r = Registry::empty();
    r.add("Save".to_string(), vec!["Ctrl+S".to_string()]);
    let sub = r.subscribe();
    let res = r.delete(424242);
    assert_eq!(res.unwrap_err(), RegistryError::NotFound);
    assert_eq!(names(&r), vec!["Save".to_string()]);
    assert!(r.read_next(sub).is_none(), "no publish on NotFound");
}

#[test]
fn update_replaces_name_and_sequence_in_place() {
    let mut r = Registry::empty();
    let (id_a, _) = r.add("A".to_string(), vec!["Ctrl+A".to_string()]);
    let (id_b, _) = r.add("B".to_string(), vec!["Ctrl+B".to_string()]);
    r.update(id_a, "A2".to_string(), vec!["Ctrl+X".to_string()]).unwrap();
    let list = r.list();
    assert_eq!(list[0].id, id_a);
    assert_eq!(list[0].name, "A2");
    assert_eq!(list[0].sequence, vec!["Ctrl+X".to_string()]);
    assert_eq!(list[1].id, id_b);
    assert_eq!(list[1].name, "B");
}

#[test]
fn persist_then_reload_gives_identical_ordered_list() {
    let mut r = Registry::empty();
    r.add("Save".to_string(), vec!["Ctrl+S".to_string()]);
    r.add("Quote \"x\"".to_string(), vec!["a\\b".to_string(), "line\ntwo".to_string()]);
    r.add("Empty".to_string(), vec![]);
    let doc = r.document();
    let reloaded = Registry::load(Some(&doc));
    let a = r.list();
    let b = reloaded.list();
    assert_eq!(a.len(), b.len());
    for (x, y) in a.iter().zip(b.iter()) {
        assert_eq!(x.id, y.id);
        assert_eq!(x.name, y.name);
        assert_eq!(x.sequence, y.sequence);
    }
}

#[test]
fn load_of_missing_or_malformed_document_is_empty() {
    assert_eq!(Registry::load(None).list().len(), 0);
    assert_eq!(Registry::load(Some("")).list().len(), 0);
    assert_eq!(Registry::load(Some("not a document")).list().len(), 0);
    assert_eq!(Registry::load(Some("[{\"id\":1}")).list().len(), 0);
    assert_eq!(Registry::load(Some("[]")).list().len(), 0);
}

#[test]
fn reload_continues_with_fresh_ids() {
    let mut r = Registry::empty();
    let (id, _) = r.add("Save".to_string(), vec!["Ctrl+S".to_string()]);
    let doc = r.document();
    let mut r2 = Registry::load(Some(&doc));
    let (id2, _) = r2.add("Open".to_string(), vec![]);
    assert_ne!(id, id2, "an id from the file is never reused");
}

#[test]
fn broadcast_fan_out_reaches_every_reader_in_publish_order() {
    let mut r = Registry::empty();
    let reader1 = r.subscribe();
    let reader2 = r.subscribe();
    let lazy = r.subscribe();

    let (id, _) = r.add("One".to_string(), vec![]);
    r.update(id, "Two".to_string(), vec![]).unwrap();
    r.delete(id).unwrap();

    // reader1 sees each mutation's snapshot, in order, though `lazy` never reads.
    let s1 = r.read_next(reader1).expect("first snapshot");
    assert_eq!(s1.len(), 1);
    assert_eq!(s1[0].name, "One");
    let s2 = r.read_next(reader1).expect("second snapshot");
    assert_eq!(s2[0].name, "Two");
    let s3 = r.read_next(reader1).expect("third snapshot");
    assert_eq!(s3.len(), 0);
    assert!(r.read_next(reader1).is_none());

    // reader2 independently sees the same three, in the same order.
    assert_eq!(r.read_next(reader2).unwrap().len(), 1);
    assert_eq!(r.read_next(reader2).unwrap()[0].name, "Two");
    assert_eq!(r.read_next(reader2).unwrap().len(), 0);

    let _ = lazy;
}

#[test]
fn a_reader_that_never_reads_is_dropped_not_blocking() {
    let mut r = Registry::empty();
    let lazy = r.subscribe();
    let live = r.subscribe();
    // More mutations than one queue can hold: the publisher must keep going.
    let mut ids = Vec::new();
    for i in 0..20 {
        let (id, _) = r.add(format!("n{}", i), vec![]);
        ids.push(id);
    }
    // The lazy reader holds only its buffered snapshots, then nothing more.
    let mut got = 0;
    while r.read_next(lazy).is_some() {
        got += 1;
    }
    assert!(got <= 16, "a full queue stops receiving");
    // The live reader was not in the way of any publish either; drain it.
    let mut last_len = 0;
    let mut seen = 0;
    while let Some(snap) = r.read_next(live) {
        seen += 1;
        last_len = snap.len();
        if seen > 16 {
            break;
        }
    }
    assert!(seen >= 1);
    let _ = last_len;
}

#[test]
fn example_scenario_full_lifecycle() {
    let mut r = Registry::empty();
    assert_eq!(r.list().len(), 0);

    let (x, _) = r.add("Save".to_string(), vec!["Ctrl+S".to_string()]);
    let list = r.list();
    assert_eq!(list.len(), 1);
    assert_eq!(list[0].id, x);
    assert_eq!(list[0].name, "Save");
    assert_eq!(list[0].sequence, vec!["Ctrl+S".to_string()]);

    r.update(x, "Save As".to_string(), vec!["Ctrl+Shift+S".to_string()]).unwrap();
    let list = r.list();
    assert_eq!(list[0].name, "Save As");
    assert_eq!(list[0].sequence, vec!["Ctrl+Shift+S".to_string()]);

    r.delete(x).unwrap();
    assert_eq!(r.list().len(), 0);

    assert_eq!(r.delete(x).unwrap_err(), RegistryError::NotFound);
}
