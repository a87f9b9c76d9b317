use reducers::axis::{number_scan_class, scan_class};
use reducers::parallel::AxisParallelClass;
use reducers::reducers_1d::Kind;
use reducers::ScanPolicy;

#[test]
fn policy_codes() {
    assert_eq!(ScanPolicy::from_code(0), ScanPolicy::AllValues);
    assert_eq!(ScanPolicy::from_code(1), ScanPolicy::AllFinite);
    assert_eq!(ScanPolicy::from_code(2), ScanPolicy::SkipNan);
    assert_eq!(ScanPolicy::from_code(3), ScanPolicy::SkipNonFinite);
}

#[test]
fn kind_codes() {
    let kinds = [
        Kind::Mean,
        Kind::Sum,
        Kind::Min,
        Kind::Max,
        Kind::Median,
        Kind::LMedian,
        Kind::Var,
        Kind::Std,
        Kind::CountFinite,
    ];
    for (code, kind) in kinds.iter().enumerate() {
        assert_eq!(Kind::from_code(code as u8), *kind);
        assert_eq!(kind.needs_mut(), matches!(kind, Kind::Median | Kind::LMedian));
    }
}

#[test]
fn scan_classes() {
    assert_eq!(scan_class(Kind::Var, ScanPolicy::AllValues), AxisParallelClass::ScanVar);
    assert_eq!(scan_class(Kind::Std, ScanPolicy::SkipNan), AxisParallelClass::ScanVar);
    assert_eq!(scan_class(Kind::Mean, ScanPolicy::SkipNan), AxisParallelClass::ScanNan);
    assert_eq!(scan_class(Kind::Min, ScanPolicy::SkipNonFinite), AxisParallelClass::ScanNan);
    assert_eq!(scan_class(Kind::Sum, ScanPolicy::AllFinite), AxisParallelClass::ScanPlain);
    assert_eq!(scan_class(Kind::Max, ScanPolicy::AllValues), AxisParallelClass::ScanPlain);
    assert_eq!(number_scan_class(Kind::Var), AxisParallelClass::ScanVar);
    assert_eq!(number_scan_class(Kind::Std), AxisParallelClass::ScanVar);
    assert_eq!(number_scan_class(Kind::Median), AxisParallelClass::ScanPlain);
}
