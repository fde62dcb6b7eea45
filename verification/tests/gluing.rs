use sheaves::Data;
use sheaves::GluingEngine;
use sheaves::GluingError;
use sheaves::OpenSet;
use sheaves::Section;

fn section_over(pairs: &[(usize, i64)]) -> Section {
    let mut s = Section::new(OpenSet::new());
    for &(p, v) in pairs {
        s.insert(p, Data(v));
    }
    s
}

#[test]
fn restriction_to_smaller_domain_is_transitive() {
    let s = section_over(&[(1, 10), (2, 20), (3, 30)]);
    let d2 = OpenSet::from_vec(vec![1, 2]);
    let d1 = OpenSet::from_vec(vec![1]);
    assert_eq!(s.restrict(&d2).restrict(&d1), s.restrict(&d1));
}

#[test]
fn restriction_to_own_domain_is_identity() {
    let s = section_over(&[(1, 10), (2, 20), (3, 30)]);
    assert_eq!(s.restrict(&s.domain), s);
    let larger = OpenSet::from_vec(vec![1, 2, 3, 4, 5]);
    assert_eq!(s.restrict(&larger), s);
}

#[test]
fn compatibility_is_symmetric() {
    let a = section_over(&[(1, 10), (2, 20)]);
    let b = section_over(&[(2, 20), (3, 30)]);
    let c = section_over(&[(2, 99), (3, 30)]);
    let overlap = OpenSet::from_vec(vec![2]);
    assert_eq!(a.is_compatible(&overlap, &b), b.is_compatible(&overlap, &a));
    assert_eq!(a.is_compatible(&overlap, &c), c.is_compatible(&overlap, &a));
    assert!(a.is_compatible(&overlap, &b));
    assert!(!a.is_compatible(&overlap, &c));
}

#[test]
fn glue_is_a_pure_merge() {
    let a = section_over(&[(1, 10), (2, 20)]);
    let b = section_over(&[(2, 21), (3, 30)]);
    let d = OpenSet::from_vec(vec![2, 3]);
    let merged = a.glue(&d, &b);
    assert_eq!(merged.get(1), Some(Data(10)));
    assert_eq!(merged.get(2), Some(Data(21)));
    assert_eq!(merged.get(3), Some(Data(30)));
    assert_eq!(merged.domain, OpenSet::from_vec(vec![1, 2, 3]));
}

#[test]
fn gluing_single_cover_returns_section_unchanged() {
    let s = section_over(&[(1, 10), (2, 20)]);
    let cover = vec![(OpenSet::from_vec(vec![1, 2]), section_over(&[(1, 10), (2, 20)]))];
    match GluingEngine::gluing(&cover) {
        Ok(Some(g)) => assert_eq!(g, s),
        other => panic!("{:?}", other),
    }
}

#[test]
fn gluing_two_agreeing_sections_merges_domains() {
    let a = section_over(&[(1, 10), (2, 20)]);
    let b = section_over(&[(2, 20), (3, 30)]);
    let da = OpenSet::from_vec(vec![1, 2]);
    let db = OpenSet::from_vec(vec![2, 3]);
    match GluingEngine::gluing(&vec![(da, a), (db, b)]) {
        Ok(Some(g)) => {
            assert_eq!(g.domain, OpenSet::from_vec(vec![1, 2, 3]));
            assert_eq!(g.get(1), Some(Data(10)));
            assert_eq!(g.get(2), Some(Data(20)));
            assert_eq!(g.get(3), Some(Data(30)));
        },
        other => panic!("{:?}", other),
    }
}

#[test]
fn gluing_two_disagreeing_sections_names_the_pair() {
    let a = section_over(&[(1, 10), (2, 20)]);
    let b = section_over(&[(2, 99), (3, 30)]);
    let da = OpenSet::from_vec(vec![1, 2]);
    let db = OpenSet::from_vec(vec![2, 3]);
    let r = GluingEngine::gluing(&vec![(da, a), (db, b)]);
    assert_eq!(r, Err(GluingError::IncompatibleCover(0, 1)));
}

#[test]
fn gluing_reports_first_bad_pair_in_check_order() {
    let a = section_over(&[(1, 10), (2, 20)]);
    let b = section_over(&[(2, 20)]);
    let c = section_over(&[(1, 99)]);
    let da = OpenSet::from_vec(vec![1, 2]);
    let db = OpenSet::from_vec(vec![2]);
    let dc = OpenSet::from_vec(vec![1]);
    let r = GluingEngine::gluing(&vec![(da, a), (db, b), (dc, c)]);
    assert_eq!(r, Err(GluingError::IncompatibleCover(0, 2)));
}

#[test]
fn gluing_empty_cover_is_empty_result() {
    let cover: Vec<(OpenSet, Section)> = vec![];
    assert_eq!(GluingEngine::gluing(&cover), Ok(None));
}

#[test]
fn locally_equal_sections_are_detected() {
    let a = section_over(&[(1, 10), (2, 20)]);
    let b = section_over(&[(2, 20), (3, 30)]);
    let c = section_over(&[(2, 99)]);
    let d = OpenSet::from_vec(vec![2]);
    assert!(GluingEngine::is_locally_equal(&d, &a, &b));
    assert!(!GluingEngine::is_locally_equal(&d, &a, &c));
}

#[test]
fn uniqueness_rejects_agreeing_candidates() {
    let d = OpenSet::from_vec(vec![2]);
    let agreeing = (
        OpenSet::from_vec(vec![2]),
        section_over(&[(1, 10), (2, 20)]),
        section_over(&[(2, 20), (3, 30)]),
    );
    let differing = (
        d,
        section_over(&[(2, 20)]),
        section_over(&[(2, 99)]),
    );
    assert!(!GluingEngine::uniqueness(&vec![agreeing]));
    let differing_only = vec![differing];
    assert!(GluingEngine::uniqueness(&differing_only));
    assert!(GluingEngine::uniqueness(&vec![]));
}

#[test]
fn section_reads_only_its_assignments() {
    let s = section_over(&[(1, 10)]);
    assert_eq!(s.get(1), Some(Data(10)));
    assert_eq!(s.get(99), None);
    let partial = Section::new(OpenSet::from_vec(vec![1, 2]));
    assert_eq!(partial.get(1), None);
    assert_eq!(partial.domain, OpenSet::from_vec(vec![1, 2]));

    let mut overwritten = Section::new(OpenSet::new());
    overwritten.insert(1, Data(10));
    overwritten.insert(1, Data(11));
    assert_eq!(overwritten.get(1), Some(Data(11)));
    assert_eq!(overwritten.domain.len(), 1);
}
