use path_calculate::{CalcPath, Segment};

fn home() -> Option<Vec<u8>> {
    Some(b"/home/chao".to_vec())
}

fn drive(letter: &[u8], names: &[&[u8]]) -> CalcPath {
    let mut segs = vec![Segment::Prefix(letter.to_vec())];
    for n in names {
        segs.push(Segment::Normal(n.to_vec()));
    }
    CalcPath::from_segments(segs).unwrap()
}

#[test]
fn as_absolute_home_expansion() {
    let p = CalcPath::parse(&b"~/works/x".to_vec());
    let r = p.as_absolute_path(&home()).unwrap();
    assert_eq!(r.to_bytes(), b"/home/chao/works/x".to_vec());
}

#[test]
fn as_absolute_lone_tilde() {
    let p = CalcPath::parse(&b"~".to_vec());
    let r = p.as_absolute_path(&home()).unwrap();
    assert_eq!(r.to_bytes(), b"/home/chao".to_vec());
}

#[test]
fn as_absolute_idempotent_on_absolute() {
    let p = CalcPath::parse(&b"/usr/local/bin".to_vec());
    let r = p.as_absolute_path(&home()).unwrap();
    assert_eq!(r.to_bytes(), b"/usr/local/bin".to_vec());
}

#[test]
fn as_absolute_resolves_dot_markers() {
    let p = CalcPath::parse(&b"/a/./b/../c".to_vec());
    let r = p.as_absolute_path(&home()).unwrap();
    assert_eq!(r.to_bytes(), b"/a/c".to_vec());
}

#[test]
fn as_absolute_relative_is_rooted() {
    let p = CalcPath::parse(&b"some/dir".to_vec());
    let bytes = p.as_absolute_path(&home()).unwrap().to_bytes();
    assert_eq!(bytes[0], b'/');
    assert!(bytes.ends_with(b"/some/dir"));
    assert_ne!(bytes, b"some/dir".to_vec());
}

#[test]
fn tilde_only_expands_as_whole_first_segment() {
    let p = CalcPath::parse(&b"~extra/y".to_vec());
    let bytes = p.as_absolute_path(&home()).unwrap().to_bytes();
    assert_eq!(bytes[0], b'/');
    assert!(bytes.ends_with(b"/~extra/y"));
    let q = CalcPath::parse(&b"a/~/b".to_vec());
    let qbytes = q.as_absolute_path(&home()).unwrap().to_bytes();
    assert_eq!(qbytes[0], b'/');
    assert!(qbytes.ends_with(b"/a/~/b"));
}

#[test]
fn home_dir_reads_ambient_value() {
    let h = CalcPath::home_dir(&home()).unwrap();
    assert_eq!(h.to_bytes(), b"/home/chao".to_vec());
}

#[test]
fn home_dir_unset_is_invalid_input() {
    assert!(CalcPath::home_dir(&None).unwrap_err().is_invalid_input());
}

#[test]
fn home_dir_empty_is_invalid_input() {
    assert!(CalcPath::home_dir(&Some(Vec::new())).unwrap_err().is_invalid_input());
}

#[test]
fn missing_home_fails_expansion() {
    let p = CalcPath::parse(&b"~/x".to_vec());
    assert!(p.as_absolute_path(&None).unwrap_err().is_invalid_input());
    assert!(p.as_absolute_path(&Some(Vec::new())).unwrap_err().is_invalid_input());
}

#[test]
fn relative_root_with_home_suffix() {
    let p1 = CalcPath::parse(&b"/home/gits/mkisos".to_vec());
    let p2 = CalcPath::parse(&b"~/trash".to_vec());
    let r = p1.relative_root_with(&p2, &home()).unwrap();
    assert_eq!(r.to_bytes(), b"/home".to_vec());
}

#[test]
fn relative_root_is_symmetric() {
    let a = CalcPath::parse(&b"/home/a/b".to_vec());
    let b = CalcPath::parse(&b"/home/a/c/d".to_vec());
    let r1 = a.relative_root_with(&b, &home()).unwrap().to_bytes();
    let r2 = b.relative_root_with(&a, &home()).unwrap().to_bytes();
    assert_eq!(r1, r2);
    assert_eq!(r1, b"/home/a".to_vec());
}

#[test]
fn relative_root_is_prefix_of_both() {
    let a = CalcPath::parse(&b"/x/y/z".to_vec());
    let b = CalcPath::parse(&b"/x/y/w".to_vec());
    let r = a.relative_root_with(&b, &home()).unwrap().to_bytes();
    assert_eq!(r, b"/x/y".to_vec());
    let mut ra = r.clone();
    ra.push(b'/');
    assert!(a.to_bytes().starts_with(&ra));
    assert!(b.to_bytes().starts_with(&ra));
}

#[test]
fn relative_root_of_equal_paths() {
    let a = CalcPath::parse(&b"/home/cc".to_vec());
    let b = CalcPath::parse(&b"/home/cc".to_vec());
    let r = a.relative_root_with(&b, &home()).unwrap();
    assert_eq!(r.to_bytes(), b"/home/cc".to_vec());
}

#[test]
fn relative_root_only_root_in_common() {
    let a = CalcPath::parse(&b"/etc/hosts".to_vec());
    let b = CalcPath::parse(&b"/var/log".to_vec());
    let r = a.relative_root_with(&b, &home()).unwrap();
    assert_eq!(r.to_bytes(), b"/".to_vec());
}

#[test]
fn relative_root_same_drive() {
    let d1 = drive(b"D:", &[b"Games", b"Videos", b"Replays"]);
    let d2 = drive(b"D:", &[b"Games", b"Dota2"]);
    let r = d1.relative_root_with(&d2, &home()).unwrap();
    assert_eq!(r.to_bytes(), b"D:/Games".to_vec());
}

#[test]
fn relative_root_differing_drives_is_invalid_input() {
    let c = drive(b"C:", &[b"Users", b"x"]);
    let d = drive(b"D:", &[b"Games"]);
    assert!(c.relative_root_with(&d, &home()).unwrap_err().is_invalid_input());
}

#[test]
fn related_to_differing_drives_is_invalid_input() {
    let c = drive(b"C:", &[b"Users", b"x"]);
    let d = drive(b"D:", &[b"Games"]);
    assert!(c.related_to(&d, &home()).unwrap_err().is_invalid_input());
}

#[test]
fn related_to_home_led_source() {
    let dst = CalcPath::parse(&b"/home/chao/works/demo/src".to_vec());
    let src = CalcPath::parse(&b"~/trash".to_vec());
    let r = dst.related_to(&src, &home()).unwrap();
    assert_eq!(r.to_bytes(), b"../works/demo/src".to_vec());
}

#[test]
fn related_to_pure_descent() {
    let dst = CalcPath::parse(&b"/home/cc/work/a".to_vec());
    let src = CalcPath::parse(&b"/home/cc".to_vec());
    let r = dst.related_to(&src, &home()).unwrap();
    assert_eq!(r.to_bytes(), b"work/a".to_vec());
}

#[test]
fn related_to_ascends_then_descends() {
    let dst = CalcPath::parse(&b"/home/cc/work/a".to_vec());
    let src = CalcPath::parse(&b"/home/cc/App/demo".to_vec());
    let r = dst.related_to(&src, &home()).unwrap();
    assert_eq!(r.to_bytes(), b"../../work/a".to_vec());
}

#[test]
fn related_to_equal_paths_is_empty() {
    let dst = CalcPath::parse(&b"/home/cc".to_vec());
    let src = CalcPath::parse(&b"/home/cc".to_vec());
    let r = dst.related_to(&src, &home()).unwrap();
    assert_eq!(r.to_bytes(), b"".to_vec());
}

#[test]
fn resolving_related_from_source_reaches_destination() {
    let dst = CalcPath::parse(&b"/home/cc/work/a".to_vec());
    let src = CalcPath::parse(&b"/home/cc/App/demo".to_vec());
    let rel = dst.related_to(&src, &home()).unwrap();
    let mut combined = src.to_bytes();
    combined.push(b'/');
    combined.extend_from_slice(&rel.to_bytes());
    let resolved = CalcPath::parse(&combined).as_absolute_path(&home()).unwrap();
    assert_eq!(resolved.to_bytes(), dst.to_bytes());
}

#[test]
fn as_absolute_empty_path_is_rooted() {
    let p = CalcPath::parse(&b"".to_vec());
    let bytes = p.as_absolute_path(&home()).unwrap().to_bytes();
    assert_eq!(bytes[0], b'/');
}

#[test]
fn home_expansion_keeps_home_verbatim() {
    let p = CalcPath::parse(&b"~/x".to_vec());
    let r = p.as_absolute_path(&Some(b"h".to_vec())).unwrap();
    assert_eq!(r.to_bytes(), b"h/x".to_vec());
}

#[test]
fn as_absolute_drive_path_resolves_dots() {
    let segs = vec![
        Segment::Prefix(b"C:".to_vec()),
        Segment::Normal(b"a".to_vec()),
        Segment::ParentDir,
        Segment::Normal(b"b".to_vec()),
    ];
    let p = CalcPath::from_segments(segs).unwrap();
    let r = p.as_absolute_path(&home()).unwrap();
    assert_eq!(r.to_bytes(), b"C:/b".to_vec());
}

#[test]
fn parse_and_join_normalize_separators() {
    let p = CalcPath::parse(&b"//a///b/".to_vec());
    assert_eq!(p.to_bytes(), b"/a/b".to_vec());
}

#[test]
fn parse_keeps_only_leading_current_dir_marker() {
    let p = CalcPath::parse(&b"./a/./b".to_vec());
    assert_eq!(p.to_bytes(), b"./a/b".to_vec());
}

#[test]
fn from_segments_rejects_misplaced_root() {
    let segs = vec![Segment::Normal(b"a".to_vec()), Segment::Root];
    assert!(CalcPath::from_segments(segs).is_none());
}

#[test]
fn from_segments_rejects_separator_in_name() {
    let segs = vec![Segment::Normal(b"a/b".to_vec())];
    assert!(CalcPath::from_segments(segs).is_none());
}
