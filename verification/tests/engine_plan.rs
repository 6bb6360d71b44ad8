use oneocr::engine::{check, files_to_copy, plan_engine_dir, EngineDirPlan};
use oneocr::error::OcrError;

#[test]
fn check_zero_is_ok() {
    assert!(check(0, "RunOcrPipeline").is_ok());
}

#[test]
fn check_nonzero_names_operation_and_code() {
    match check(-3, "GetOcrLine") {
        Err(OcrError::DllCall { operation, code }) => {
            assert_eq!(operation, "GetOcrLine");
            assert_eq!(code, -3);
        }
        _ => panic!("expected DllCall error"),
    }
}

#[test]
fn plan_uses_first_ready_candidate() {
    assert_eq!(plan_engine_dir(&vec![false, true, true]), EngineDirPlan::Use(1));
}

#[test]
fn plan_sets_up_in_last_candidate() {
    assert_eq!(plan_engine_dir(&vec![false, false]), EngineDirPlan::SetUp(Some(1)));
    assert_eq!(plan_engine_dir(&vec![]), EngineDirPlan::SetUp(None));
}

#[test]
fn setup_copies_missing_files_unless_forced() {
    assert_eq!(files_to_copy(false, &vec![true, false, true]), vec![1]);
    assert_eq!(files_to_copy(true, &vec![true, false, true]), vec![0, 1, 2]);
}
