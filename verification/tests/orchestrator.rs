use defbuild::config::{resolve_directory, ConfigError};
use defbuild::hashing::content_hash;
use defbuild::interp::{select_interpreter, Interpreter, InterpreterError};
use defbuild::hex::{hex_decode, hex_encode};
use defbuild::parse::{parse_definition, ParseErrorKind};
use defbuild::resolver::{plan, Action, ArtifactRecord};
use defbuild::store::{DefinitionStore, FileContent, FileEntry, StoreError};

fn entry(name: &str, path: &str, body: &[u8]) -> FileEntry {
    FileEntry {
        name: name.as_bytes().to_vec(),
        path: path.as_bytes().to_vec(),
        content: FileContent::Bytes(body.to_vec()),
    }
}

fn store(entries: Vec<FileEntry>) -> DefinitionStore {
    DefinitionStore::new(entries)
}

#[test]
fn content_hash_is_deterministic() {
    let a = b"#!/bin/sh\necho hi\n".to_vec();
    let b = b"#!/bin/sh\necho hi\n".to_vec();
    assert_eq!(content_hash(&a), content_hash(&b));
    // FNV-1a offset basis is the digest of no bytes at all
    assert_eq!(content_hash(&Vec::new()), 0xcbf29ce484222325);
}

#[test]
fn hex_round_trip() {
    let h: u64 = 0x0123456789abcdef;
    let e = hex_encode(h);
    assert_eq!(e, b"0123456789abcdef".to_vec());
    assert_eq!(hex_decode(&e), Some(h));
    assert_eq!(hex_decode(&b"012".to_vec()), None);
    assert_eq!(hex_decode(&b"0123456789abcdeg".to_vec()), None);
}

#[test]
fn parse_extracts_directive_and_deps() {
    let body = b"#!/bin/sh\n#~ depends_on = base, tools\necho x\n".to_vec();
    let d = parse_definition(b"app".to_vec(), b"/defs/app.sh".to_vec(), &body).unwrap();
    assert_eq!(d.bang, b"#!/bin/sh".to_vec());
    assert_eq!(d.depends_on, vec![b"base".to_vec(), b"tools".to_vec()]);
    assert_eq!(d.content_hash, content_hash(&body));
    assert_eq!(d.tree_hash, d.content_hash);
}

#[test]
fn parse_rejects_bad_input() {
    let r = parse_definition(b"a".to_vec(), b"/a".to_vec(), &Vec::new());
    assert!(matches!(r, Err(ParseErrorKind::EmptyFile)));
    let r = parse_definition(b"a".to_vec(), b"/a".to_vec(), &vec![0xffu8, 0xfe]);
    assert!(matches!(r, Err(ParseErrorKind::NotText)));
    let r = parse_definition(b"a".to_vec(), b"/a".to_vec(), &b"#!/x\n#~ nonsense\n".to_vec());
    assert!(matches!(r, Err(ParseErrorKind::BadMetadata)));
}

#[test]
fn lookup_suggests_closest_name() {
    let s = store(vec![
        entry("foo", "/d/foo.sh", b"#!/bin/sh\n"),
        entry("other", "/d/other.sh", b"#!/bin/sh\n"),
    ]);
    match s.find(b"fob") {
        Err(StoreError::NotFound { name, suggestion }) => {
            assert_eq!(name, b"fob".to_vec());
            assert_eq!(suggestion, Some(b"foo".to_vec()));
        },
        _ => panic!("expected NotFound"),
    }
}

#[test]
fn enumerate_aggregates_all_failures() {
    let s = store(vec![
        entry("good", "/d/good.sh", b"#!/bin/sh\n"),
        entry("bad", "/d/bad.sh", b""),
    ]);
    match s.enumerate() {
        Err(StoreError::ParseAggregate { failed }) => {
            assert_eq!(failed.len(), 1);
            assert_eq!(failed[0].0, b"/d/bad.sh".to_vec());
            assert!(matches!(failed[0].1, ParseErrorKind::EmptyFile));
        },
        _ => panic!("expected aggregate error"),
    }
}

fn two_node_store() -> DefinitionStore {
    store(vec![
        entry("x", "/d/x.sh", b"#!/bin/sh\n#~ depends_on = y\necho x\n"),
        entry("y", "/d/y.sh", b"#!/bin/sh\necho y\n"),
    ])
}

#[test]
fn closure_pulls_in_dependencies() {
    let s = two_node_store();
    let p = plan(&s, &vec![b"x".to_vec()], false, true, &Vec::new()).unwrap();
    assert_eq!(p.requested_count, 1);
    assert_eq!(p.transitive_count, 1);
    assert_eq!(p.defs.len(), 2);
    // dependency strictly before dependent
    assert_eq!(p.defs[0].name, b"y".to_vec());
    assert_eq!(p.defs[1].name, b"x".to_vec());
}

#[test]
fn tree_hash_is_xor_of_reachable_content() {
    let s = two_node_store();
    let p = plan(&s, &vec![b"x".to_vec()], false, true, &Vec::new()).unwrap();
    let y = &p.defs[0];
    let x = &p.defs[1];
    assert_eq!(y.tree_hash, y.content_hash);
    assert_eq!(x.tree_hash, x.content_hash ^ y.content_hash);
}

#[test]
fn declaration_order_does_not_change_tree_hash() {
    let a = entry("a", "/d/a.sh", b"#!/s\necho a\n");
    let b = entry("b", "/d/b.sh", b"#!/s\necho b\n");
    let top1 = entry("t", "/d/t.sh", b"#!/s\n#~ depends_on = a, b\n");
    let s1 = store(vec![top1, a, b]);
    let p1 = plan(&s1, &vec![b"t".to_vec()], false, true, &Vec::new()).unwrap();
    let t1 = p1.defs.iter().find(|d| d.name == b"t".to_vec()).unwrap();

    let a = entry("a", "/d/a.sh", b"#!/s\necho a\n");
    let b = entry("b", "/d/b.sh", b"#!/s\necho b\n");
    let top2 = entry("t2", "/d/t.sh", b"#!/s\n#~ depends_on = b, a\n");
    let s2 = store(vec![top2, a, b]);
    let p2 = plan(&s2, &vec![b"t2".to_vec()], false, true, &Vec::new()).unwrap();
    let t2 = p2.defs.iter().find(|d| d.name == b"t2".to_vec()).unwrap();
    // the dependency contribution is the same whatever the declared order
    assert_eq!(
        t1.tree_hash ^ t1.content_hash,
        t2.tree_hash ^ t2.content_hash
    );
}

#[test]
fn cycle_is_rejected() {
    let s = store(vec![
        entry("a", "/d/a.sh", b"#!/s\n#~ depends_on = b\n"),
        entry("b", "/d/b.sh", b"#!/s\n#~ depends_on = a\n"),
    ]);
    let r = plan(&s, &vec![b"a".to_vec()], false, true, &Vec::new());
    assert!(matches!(r, Err(defbuild::resolver::ResolveError::Cycle { .. })));
}

#[test]
fn matching_record_is_skipped_unless_forced() {
    let s = two_node_store();
    let p = plan(&s, &vec![b"x".to_vec()], false, true, &Vec::new()).unwrap();
    assert!(p.actions.iter().all(|a| *a == Action::Build));

    let records: Vec<ArtifactRecord> = p
        .defs
        .iter()
        .map(|d| ArtifactRecord {
            path: d.path.clone(),
            content_hex: hex_encode(d.content_hash),
            tree_hex: hex_encode(d.tree_hash),
        })
        .collect();
    let p2 = plan(&s, &vec![b"x".to_vec()], false, false, &records).unwrap();
    assert!(p2.actions.iter().all(|a| *a == Action::Skip));
    let p3 = plan(&s, &vec![b"x".to_vec()], false, true, &records).unwrap();
    assert!(p3.actions.iter().all(|a| *a == Action::Build));
}

#[test]
fn stale_or_missing_records_build() {
    let s = two_node_store();
    let p = plan(&s, &vec![b"x".to_vec()], false, true, &Vec::new()).unwrap();
    // a record whose tree hash is off by one forces a rebuild of that node
    let records: Vec<ArtifactRecord> = p
        .defs
        .iter()
        .map(|d| ArtifactRecord {
            path: d.path.clone(),
            content_hex: hex_encode(d.content_hash),
            tree_hex: hex_encode(d.tree_hash ^ 1),
        })
        .collect();
    let p2 = plan(&s, &vec![b"x".to_vec()], false, false, &records).unwrap();
    assert!(p2.actions.iter().all(|a| *a == Action::Build));
}

#[test]
fn nothing_requested_is_an_error() {
    let s = two_node_store();
    let r = plan(&s, &Vec::new(), false, false, &Vec::new());
    assert!(matches!(
        r,
        Err(defbuild::resolver::ResolveError::NothingRequested)
    ));
    // "all" mode needs no explicit names
    let p = plan(&s, &Vec::new(), true, true, &Vec::new()).unwrap();
    assert_eq!(p.defs.len(), 2);
    assert_eq!(p.requested_count, 2);
    assert_eq!(p.transitive_count, 0);
}

#[test]
fn quoted_list_is_rejected_not_misread() {
    let body = b"#!/bin/sh\n#~ depends_on = [\"a\", \"b\"]\n".to_vec();
    let r = parse_definition(b"t".to_vec(), b"/t".to_vec(), &body);
    assert!(matches!(r, Err(ParseErrorKind::BadMetadata)));
}

#[test]
fn crlf_lines_yield_clean_names() {
    let body = b"#!/bin/sh\r\n#~ depends_on = base\r\necho x\r\n".to_vec();
    let d = parse_definition(b"t".to_vec(), b"/t".to_vec(), &body).unwrap();
    assert_eq!(d.depends_on, vec![b"base".to_vec()]);
}

#[test]
fn interpreter_selection() {
    match select_interpreter(b"#!/usr/bin/nu") {
        Ok(Interpreter::Named) => {},
        _ => panic!("expected the named family"),
    }
    match select_interpreter(b"#! /bin/bash ") {
        Ok(Interpreter::Posix(exe)) => assert_eq!(exe, b"/bin/bash".to_vec()),
        _ => panic!("expected a POSIX shell"),
    }
    assert!(matches!(
        select_interpreter(b"#!   "),
        Err(InterpreterError::InvalidDirective)
    ));
    assert!(matches!(
        select_interpreter(b"echo hi"),
        Err(InterpreterError::InvalidDirective)
    ));
}

#[test]
fn directory_resolution_order() {
    let over = Some(b"/explicit".to_vec());
    let xdg = Some(b"/xdg".to_vec());
    let home = Some(b"/home/u".to_vec());
    assert_eq!(
        resolve_directory(over.clone(), xdg.clone(), home.clone()).unwrap(),
        b"/explicit".to_vec()
    );
    assert_eq!(
        resolve_directory(None, xdg.clone(), home.clone()).unwrap(),
        b"/xdg/defbuild".to_vec()
    );
    assert_eq!(
        resolve_directory(None, None, home.clone()).unwrap(),
        b"/home/u/.config/defbuild".to_vec()
    );
    assert!(matches!(
        resolve_directory(None, None, None),
        Err(ConfigError::NoDirectory)
    ));
}

#[test]
fn malformed_record_is_a_hard_failure() {
    let s = two_node_store();
    let records = vec![ArtifactRecord {
        path: b"/d/x.sh".to_vec(),
        content_hex: b"nonsense".to_vec(),
        tree_hex: b"0123456789abcdef".to_vec(),
    }];
    let r = plan(&s, &vec![b"x".to_vec()], false, false, &records);
    match r {
        Err(defbuild::resolver::ResolveError::BadRecord { path }) => {
            assert_eq!(path, b"/d/x.sh".to_vec());
        },
        _ => panic!("expected BadRecord"),
    }
}
