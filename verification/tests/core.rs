use bc_signals_gw::columns::{align_columns, drop_last_each, select_by_procedure, split_warmup};
use bc_signals_gw::names::{position_in_prefix, position_of, resolve_names};
use bc_signals_gw::series::{fits, series_call, SeriesArgError};
use bc_signals_gw::settings::{keys_of, names_of, SignalSetting, UsedSrc};
use bc_signals_gw::window::max_window;

fn s(x: &str) -> String {
    x.to_string()
}

fn strings(xs: &[&str]) -> Vec<String> {
    xs.iter().map(|x| x.to_string()).collect()
}

fn setting(name: &str, key: &str) -> SignalSetting {
    SignalSetting {
        name: s(name),
        key: s(key),
        used_src: vec![],
        used_ind: vec![],
        used_signals: vec![],
        procedure_used_src: vec![],
        procedure_used_signals: vec![],
    }
}

#[test]
fn max_window_takes_largest() {
    assert_eq!(max_window(&vec![3, 7, 2]), 7);
    assert_eq!(max_window(&vec![2]), 2);
    assert_eq!(max_window(&vec![0, 0]), 0);
}

#[test]
fn max_window_of_nothing_is_zero() {
    assert_eq!(max_window(&vec![]), 0);
}

#[test]
fn position_finds_first_match() {
    let names = strings(&["th_1", "invert_1", "th_1"]);
    assert_eq!(position_of(&names, &s("th_1")), Some(0));
    assert_eq!(position_of(&names, &s("invert_1")), Some(1));
    assert_eq!(position_of(&names, &s("nope")), None);
}

#[test]
fn position_in_prefix_ignores_later_names() {
    let names = strings(&["a", "b", "c"]);
    assert_eq!(position_in_prefix(&names, 2, &s("b")), Some(1));
    assert_eq!(position_in_prefix(&names, 2, &s("c")), None);
    assert_eq!(position_in_prefix(&names, 3, &s("c")), Some(2));
    assert_eq!(position_in_prefix(&names, 0, &s("a")), None);
}

#[test]
fn resolve_names_all_known() {
    let names = strings(&["th", "invert", "convert"]);
    assert_eq!(resolve_names(&names, &strings(&["convert", "th", "convert"])), Ok(vec![2, 0, 2]));
    assert_eq!(resolve_names(&names, &vec![]), Ok(vec![]));
}

#[test]
fn resolve_names_reports_first_unknown() {
    let names = strings(&["th", "invert"]);
    assert_eq!(resolve_names(&names, &strings(&["th", "x", "y"])), Err(1));
    assert_eq!(resolve_names(&vec![], &strings(&["th"])), Err(0));
}

#[test]
fn select_keeps_or_picks() {
    let items = vec![1.5, 2.5, 3.5];
    assert_eq!(select_by_procedure(&items, &vec![]), vec![1.5, 2.5, 3.5]);
    assert_eq!(select_by_procedure(&items, &vec![2, 0, 0]), vec![3.5, 1.5, 1.5]);
    assert_eq!(select_by_procedure(&items, &vec![0, 1, 2]), items);
}

#[test]
fn align_columns_cuts_at_start() {
    let cols = vec![vec![1, 2, 3], vec![10, 20]];
    assert_eq!(align_columns(&cols, &vec![]), vec![vec![2, 10], vec![3, 20]]);
}

#[test]
fn align_columns_follows_procedure() {
    let cols = vec![vec![1, 2, 3], vec![10, 20]];
    assert_eq!(align_columns(&cols, &vec![1, 0]), vec![vec![10, 2], vec![20, 3]]);
    assert_eq!(align_columns(&cols, &vec![0, 0]), vec![vec![1, 1], vec![2, 2], vec![3, 3]]);
}

#[test]
fn align_columns_single_column_is_one_per_row() {
    let cols = vec![vec![0.5, -1.0, 1.0]];
    assert_eq!(align_columns(&cols, &vec![]), vec![vec![0.5], vec![-1.0], vec![1.0]]);
}

#[test]
fn align_columns_edge_cases() {
    let none: Vec<Vec<i32>> = vec![];
    assert_eq!(align_columns(&none, &vec![]), Vec::<Vec<i32>>::new());
    let with_empty = vec![vec![1, 2], vec![]];
    assert_eq!(align_columns(&with_empty, &vec![]), Vec::<Vec<i32>>::new());
}

#[test]
fn drop_last_each_removes_last_point() {
    let cols = vec![vec![1.0, 2.0, 3.0], vec![4.0]];
    assert_eq!(drop_last_each(&cols), vec![vec![1.0, 2.0], vec![]]);
}

#[test]
fn split_warmup_keeps_tail() {
    let cols = vec![vec![1, 2, 3, 4], vec![5, 6, 7, 8]];
    let (head, tail) = split_warmup(&cols, 1);
    assert_eq!(head, vec![vec![1, 2, 3], vec![5, 6, 7]]);
    assert_eq!(tail, vec![vec![4], vec![8]]);
    let (head, tail) = split_warmup(&cols, 0);
    assert_eq!(head, cols);
    assert_eq!(tail, vec![Vec::<i32>::new(), vec![]]);
    let (head, tail) = split_warmup(&cols, 4);
    assert_eq!(head, vec![Vec::<i32>::new(), vec![]]);
    assert_eq!(tail, cols);
}

#[test]
fn names_and_keys_in_order() {
    let settings = vec![setting("th_1", "th"), setting("invert_1", "invert")];
    assert_eq!(names_of(&settings), strings(&["th_1", "invert_1"]));
    assert_eq!(keys_of(&settings), strings(&["th", "invert"]));
}

#[test]
fn fits_checks_every_index() {
    assert!(fits(&vec![], 0));
    assert!(fits(&vec![0, 2], 3));
    assert!(!fits(&vec![0, 3], 3));
}

fn chain_settings() -> Vec<SignalSetting> {
    let mut convert = setting("convert_1", "convert");
    convert.used_ind = strings(&["trend_ma_1", "repeat_1"]);
    let mut change = setting("change_1", "change_signal");
    change.used_signals = strings(&["convert_1"]);
    let mut invert = setting("invert_1", "invert");
    invert.used_signals = strings(&["change_1"]);
    vec![convert, change, invert]
}

#[test]
fn series_call_gathers_chain() {
    let settings = chain_settings();
    let src: Vec<Vec<f64>> = vec![vec![1.0, 2.0], vec![3.0, 4.0]];
    let ind_names = strings(&["repeat_1", "trend_ma_1"]);
    let ind_values = vec![1.0, -0.5];
    let call = series_call::<f64, i8>(&settings, &src, &ind_names, &ind_values, &vec![]).unwrap();
    assert_eq!(call.src_arg, vec![-0.5, 1.0]);
    assert!(call.signals_arg.is_empty());
    let call = series_call(&settings, &src, &ind_names, &ind_values, &vec![1i8]).unwrap();
    assert!(call.src_arg.is_empty());
    assert_eq!(call.signals_arg, vec![1i8]);
    let call = series_call(&settings, &src, &ind_names, &ind_values, &vec![1i8, -1]).unwrap();
    assert_eq!(call.signals_arg, vec![-1i8]);
}

#[test]
fn series_call_reads_points_from_end() {
    let mut th = setting("th_1", "th");
    th.used_src = vec![
        UsedSrc { index: 1, sub_from_last_i: 0 },
        UsedSrc { index: 0, sub_from_last_i: 2 },
    ];
    th.used_ind = strings(&["rsi_1"]);
    let settings = vec![th];
    let src = vec![vec![1.0, 2.0, 3.0], vec![10.0, 20.0, 30.0]];
    let call =
        series_call::<f64, u8>(&settings, &src, &strings(&["rsi_1"]), &vec![50.0], &vec![]).unwrap();
    assert_eq!(call.src_arg, vec![30.0, 1.0, 50.0]);
}

#[test]
fn series_call_applies_both_procedures_to_sources() {
    let mut th = setting("th_1", "th");
    th.used_src = vec![
        UsedSrc { index: 0, sub_from_last_i: 0 },
        UsedSrc { index: 0, sub_from_last_i: 1 },
        UsedSrc { index: 0, sub_from_last_i: 2 },
    ];
    th.procedure_used_src = vec![2, 1];
    th.procedure_used_signals = vec![1, 1, 0];
    let settings = vec![th];
    let src = vec![vec![1, 2, 3]];
    let call = series_call::<i32, u8>(&settings, &src, &vec![], &vec![], &vec![]).unwrap();
    assert_eq!(call.src_arg, vec![2, 2, 1]);
}

#[test]
fn series_call_src_out_of_range() {
    let mut th = setting("th_1", "th");
    th.used_src = vec![UsedSrc { index: 2, sub_from_last_i: 0 }];
    let settings = vec![th];
    let src = vec![vec![1.0], vec![2.0]];
    let r = series_call::<f64, u8>(&settings, &src, &vec![], &vec![], &vec![]);
    assert_eq!(r.unwrap_err(), SeriesArgError::SrcOutOfRange);
    let mut th = setting("th_1", "th");
    th.used_src = vec![UsedSrc { index: 0, sub_from_last_i: 1 }];
    let settings = vec![th];
    let r = series_call::<f64, u8>(&settings, &src, &vec![], &vec![], &vec![]);
    assert_eq!(r.unwrap_err(), SeriesArgError::SrcOutOfRange);
}

#[test]
fn series_call_unknown_indication() {
    let settings = chain_settings();
    let r = series_call::<f64, u8>(&settings, &vec![], &strings(&["trend_ma_1"]), &vec![1.0], &vec![]);
    assert_eq!(r.unwrap_err(), SeriesArgError::UnknownIndication);
}

#[test]
fn series_call_signal_not_ready() {
    let mut a = setting("a", "invert");
    a.used_signals = strings(&["b"]);
    let b = setting("b", "th");
    let settings = vec![a, b];
    let r = series_call::<f64, u8>(&settings, &vec![], &vec![], &vec![], &vec![]);
    assert_eq!(r.unwrap_err(), SeriesArgError::SignalNotReady);
    let mut c = setting("c", "invert");
    c.used_signals = strings(&["c"]);
    let r = series_call::<f64, u8>(&vec![c], &vec![], &vec![], &vec![], &vec![]);
    assert_eq!(r.unwrap_err(), SeriesArgError::SignalNotReady);
}

#[test]
fn series_call_procedure_out_of_range() {
    let mut th = setting("th_1", "th");
    th.used_src = vec![UsedSrc { index: 0, sub_from_last_i: 0 }];
    th.procedure_used_src = vec![1];
    let settings = vec![th];
    let src = vec![vec![1.0]];
    let r = series_call::<f64, u8>(&settings, &src, &vec![], &vec![], &vec![]);
    assert_eq!(r.unwrap_err(), SeriesArgError::ProcedureOutOfRange);
    let mut th = setting("th_1", "th");
    th.used_src = vec![UsedSrc { index: 0, sub_from_last_i: 0 }];
    th.procedure_used_signals = vec![1];
    let settings = vec![th];
    let r = series_call::<f64, u8>(&settings, &src, &vec![], &vec![], &vec![]);
    assert_eq!(r.unwrap_err(), SeriesArgError::ProcedureOutOfRange);
}

#[test]
fn series_call_reports_first_failing_stage() {
    let mut th = setting("th_1", "th");
    th.used_src = vec![UsedSrc { index: 5, sub_from_last_i: 0 }];
    th.used_ind = strings(&["missing"]);
    th.used_signals = strings(&["missing"]);
    th.procedure_used_src = vec![9];
    let r = series_call::<f64, u8>(&vec![th], &vec![], &vec![], &vec![], &vec![]);
    assert_eq!(r.unwrap_err(), SeriesArgError::SrcOutOfRange);
}

#[test]
fn window_grows_with_group() {
    assert_eq!(max_window(&vec![3, 7, 2, 9]), 9);
    assert_eq!(max_window(&vec![3, 7, 2, 1]), 7);
}
