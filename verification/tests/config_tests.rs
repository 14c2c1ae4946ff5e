use magic_cube::config::FractalConfig;
use magic_cube::errors::FractalError;

#[test]
fn fresh_config_holds_the_built_in_rule() {
    let c = FractalConfig::new();
    assert_eq!(c.depth(), 0);
    assert_eq!(c.matrix_text(), b"2,3,0,1|1,2,3,0|0,1,2,3|3,0,1,2".to_vec());
    assert_eq!(c.matrix().dimension(), 4);
}

#[test]
fn set_depth_within_range() {
    let mut c = FractalConfig::new();
    assert_eq!(c.set_depth(8), Ok(()));
    assert_eq!(c.depth(), 8);
}

#[test]
fn set_depth_out_of_range_keeps_the_old_value() {
    let mut c = FractalConfig::new();
    c.set_depth(3).unwrap();
    assert_eq!(c.set_depth(9), Err(FractalError::InvalidDepth));
    assert_eq!(c.depth(), 3);
}

#[test]
fn set_matrix_replaces_wholesale() {
    let mut c = FractalConfig::new();
    c.set_matrix_from_text(&b"1,1|1,1".to_vec()).unwrap();
    assert_eq!(c.matrix_text(), b"1,1|1,1".to_vec());
    assert_eq!(c.matrix().dimension(), 2);
}

#[test]
fn edited_config_expands_to_the_edited_rule() {
    let mut c = FractalConfig::new();
    c.set_matrix_from_text(&b"1,1|1,1".to_vec()).unwrap();
    c.set_depth(1).unwrap();
    let got = c.expand_current(4, 0, 0, 0).unwrap();
    assert_eq!(got.len(), 4);
    for p in &got {
        assert_eq!(p.scale_num, 4);
        assert_eq!(p.denom, 2);
    }
}

#[test]
fn default_depth_expands_to_one_cube() {
    let c = FractalConfig::new();
    let got = c.expand_current(4, 0, 0, 0).unwrap();
    assert_eq!(got.len(), 1);
    assert_eq!(got[0].scale_num, 4);
    assert_eq!(got[0].denom, 1);
}

#[test]
fn unparsable_edit_still_replaces_with_empty_rows() {
    let mut c = FractalConfig::new();
    c.set_matrix_from_text(&b"nonsense".to_vec()).unwrap();
    assert_eq!(c.matrix().dimension(), 1);
    assert_eq!(c.matrix().row(0).unwrap(), &Vec::<u32>::new());
}
