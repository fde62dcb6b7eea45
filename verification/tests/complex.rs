use sheaves::spaces::cell_complex::Cell;
use sheaves::spaces::cell_complex::CellComplex;
use sheaves::spaces::cell_complex::CellSet;
use sheaves::spaces::cell_complex::ConstructionError;

fn interval_complex() -> CellComplex<1> {
    let mut complex = CellComplex::<1>::new();
    complex.add_cell(Cell::new("v1", 0)).unwrap();
    complex.add_cell(Cell::new("v2", 0)).unwrap();
    complex.add_cell(Cell::new("e1", 1)).unwrap();
    assert!(complex.attach_cells(1, "e1", 0, "v1"));
    assert!(complex.attach_cells(1, "e1", 0, "v2"));
    complex
}

#[test]
fn cell_too_high_dimension_is_rejected_and_complex_unchanged() {
    let mut complex = CellComplex::<1>::new();
    assert_eq!(complex.dim(), 1);
    let r = complex.add_cell(Cell::new("f1", 2));
    assert_eq!(r, Err(ConstructionError::DimensionExceedsComplex));
    assert!(complex.get_cell(2, "f1").is_none());
    assert_eq!(complex.elements().len(), 0);
}

#[test]
fn duplicate_cell_id_is_rejected_not_overwritten() {
    let mut complex = CellComplex::<2>::new();
    assert_eq!(complex.add_cell(Cell::new("c", 0)), Ok(()));
    let r = complex.add_cell(Cell::new("c", 0));
    assert_eq!(r, Err(ConstructionError::DuplicateCellId));
    assert_eq!(complex.elements().len(), 1);
    assert_eq!(complex.add_cell(Cell::new("c", 1)), Ok(()));
}

#[test]
fn attachments_are_recorded_symmetrically() {
    let complex = interval_complex();
    let edge = complex.get_cell(1, "e1").unwrap();
    assert_eq!(edge.get_attachments(), &vec!["v1".to_string(), "v2".to_string()]);
    let v1 = complex.get_cell(0, "v1").unwrap();
    assert_eq!(v1.get_attachments(), &vec!["e1".to_string()]);
    assert_eq!(v1.dim, 0);
    assert_eq!(v1.id, "v1");
}

#[test]
fn attaching_a_missing_cell_changes_nothing() {
    let mut complex = interval_complex();
    assert!(!complex.attach_cells(1, "e1", 0, "ghostly"));
    assert!(!complex.attach_cells(0, "absent", 1, "e1"));
    let edge = complex.get_cell(1, "e1").unwrap();
    assert_eq!(edge.get_attachments().len(), 2);
}

#[test]
fn complex_elements_and_neighborhood() {
    let complex = interval_complex();
    let all = complex.elements();
    assert_eq!(all.len(), 3);
    assert!(all.contains("v1"));
    assert!(all.contains("v2"));
    assert!(all.contains("e1"));

    let around_v1 = complex.neighborhood("v1");
    assert_eq!(around_v1.len(), 1);
    assert!(around_v1.contains("e1"));

    let around_e1 = complex.neighborhood("e1");
    assert_eq!(around_e1.len(), 2);
    assert!(around_e1.contains("v1"));
    assert!(around_e1.contains("v2"));
}

#[test]
fn openness_checks_each_skeleton_slice() {
    let complex = interval_complex();

    let mut vertices_only = CellSet::new();
    vertices_only.insert("v1");
    vertices_only.insert("v2");
    assert!(complex.is_open(&vertices_only));

    let mut mixed = CellSet::new();
    mixed.insert("v1");
    mixed.insert("e1");
    assert!(!complex.is_open(&mixed));

    assert!(complex.is_open(&CellSet::new()));
}

#[test]
fn missing_cells_are_not_found() {
    let complex = interval_complex();
    assert!(complex.get_cell(0, "e1").is_none());
    assert!(complex.get_cell(1, "e1").is_some());
    assert!(complex.get_cell(7, "e1").is_none());
}
