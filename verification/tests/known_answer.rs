use energy_level::search::{search, OnExhaustion, SearchConfig, SearchState};

// The standard search, cut into stretches of candidates short enough to be
// tried in a few seconds each. Together the stretches cover every candidate
// up to the first that yields the target.

fn standard(k_first: u16, k_last: u16) -> SearchConfig {
    SearchConfig { k_first, k_last, ..SearchConfig::default() }
}

fn assert_all_miss(k_first: u16, k_last: u16) {
    let cfg = standard(k_first, k_last);
    assert_eq!(cfg.memo_limit, None);
    assert_eq!(cfg.on_exhaustion, OnExhaustion::Abort);
    let run = search(&cfg).unwrap();
    assert_eq!(run.outcome, SearchState::Exhausted);
    assert_eq!(run.reports.len(), (k_last - k_first) as usize + 1);
    for (i, report) in run.reports.iter().enumerate() {
        assert_eq!(report.k, k_first + i as u16);
        assert!(report.result.is_some());
        assert_ne!(report.result, Some(6));
    }
}

#[test]
fn standard_search_ends_at_25734() {
    let run = search(&standard(25500, 32767)).unwrap();
    assert_eq!(run.outcome, SearchState::Found(25734));
    assert_eq!(run.reports.len(), 235);
    for (i, report) in run.reports.iter().enumerate() {
        assert_eq!(report.k, 25500 + i as u16);
        assert_eq!(report.result == Some(6), report.k == 25734);
    }
}

#[test]
fn candidates_00000_to_00249_miss() {
    assert_all_miss(0, 249);
}

#[test]
fn candidates_00250_to_00499_miss() {
    assert_all_miss(250, 499);
}

#[test]
fn candidates_00500_to_00749_miss() {
    assert_all_miss(500, 749);
}

#[test]
fn candidates_00750_to_00999_miss() {
    assert_all_miss(750, 999);
}

#[test]
fn candidates_01000_to_01249_miss() {
    assert_all_miss(1000, 1249);
}

#[test]
fn candidates_01250_to_01499_miss() {
    assert_all_miss(1250, 1499);
}

#[test]
fn candidates_01500_to_01749_miss() {
    assert_all_miss(1500, 1749);
}

#[test]
fn candidates_01750_to_01999_miss() {
    assert_all_miss(1750, 1999);
}

#[test]
fn candidates_02000_to_02249_miss() {
    assert_all_miss(2000, 2249);
}

#[test]
fn candidates_02250_to_02499_miss() {
    assert_all_miss(2250, 2499);
}

#[test]
fn candidates_02500_to_02749_miss() {
    assert_all_miss(2500, 2749);
}

#[test]
fn candidates_02750_to_02999_miss() {
    assert_all_miss(2750, 2999);
}

#[test]
fn candidates_03000_to_03249_miss() {
    assert_all_miss(3000, 3249);
}

#[test]
fn candidates_03250_to_03499_miss() {
    assert_all_miss(3250, 3499);
}

#[test]
fn candidates_03500_to_03749_miss() {
    assert_all_miss(3500, 3749);
}

#[test]
fn candidates_03750_to_03999_miss() {
    assert_all_miss(3750, 3999);
}

#[test]
fn candidates_04000_to_04249_miss() {
    assert_all_miss(4000, 4249);
}

#[test]
fn candidates_04250_to_04499_miss() {
    assert_all_miss(4250, 4499);
}

#[test]
fn candidates_04500_to_04749_miss() {
    assert_all_miss(4500, 4749);
}

#[test]
fn candidates_04750_to_04999_miss() {
    assert_all_miss(4750, 4999);
}

#[test]
fn candidates_05000_to_05249_miss() {
    assert_all_miss(5000, 5249);
}

#[test]
fn candidates_05250_to_05499_miss() {
    assert_all_miss(5250, 5499);
}

#[test]
fn candidates_05500_to_05749_miss() {
    assert_all_miss(5500, 5749);
}

#[test]
fn candidates_05750_to_05999_miss() {
    assert_all_miss(5750, 5999);
}

#[test]
fn candidates_06000_to_06249_miss() {
    assert_all_miss(6000, 6249);
}

#[test]
fn candidates_06250_to_06499_miss() {
    assert_all_miss(6250, 6499);
}

#[test]
fn candidates_06500_to_06749_miss() {
    assert_all_miss(6500, 6749);
}

#[test]
fn candidates_06750_to_06999_miss() {
    assert_all_miss(6750, 6999);
}

#[test]
fn candidates_07000_to_07249_miss() {
    assert_all_miss(7000, 7249);
}

#[test]
fn candidates_07250_to_07499_miss() {
    assert_all_miss(7250, 7499);
}

#[test]
fn candidates_07500_to_07749_miss() {
    assert_all_miss(7500, 7749);
}

#[test]
fn candidates_07750_to_07999_miss() {
    assert_all_miss(7750, 7999);
}

#[test]
fn candidates_08000_to_08249_miss() {
    assert_all_miss(8000, 8249);
}

#[test]
fn candidates_08250_to_08499_miss() {
    assert_all_miss(8250, 8499);
}

#[test]
fn candidates_08500_to_08749_miss() {
    assert_all_miss(8500, 8749);
}

#[test]
fn candidates_08750_to_08999_miss() {
    assert_all_miss(8750, 8999);
}

#[test]
fn candidates_09000_to_09249_miss() {
    assert_all_miss(9000, 9249);
}

#[test]
fn candidates_09250_to_09499_miss() {
    assert_all_miss(9250, 9499);
}

#[test]
fn candidates_09500_to_09749_miss() {
    assert_all_miss(9500, 9749);
}

#[test]
fn candidates_09750_to_09999_miss() {
    assert_all_miss(9750, 9999);
}

#[test]
fn candidates_10000_to_10249_miss() {
    assert_all_miss(10000, 10249);
}

#[test]
fn candidates_10250_to_10499_miss() {
    assert_all_miss(10250, 10499);
}

#[test]
fn candidates_10500_to_10749_miss() {
    assert_all_miss(10500, 10749);
}

#[test]
fn candidates_10750_to_10999_miss() {
    assert_all_miss(10750, 10999);
}

#[test]
fn candidates_11000_to_11249_miss() {
    assert_all_miss(11000, 11249);
}

#[test]
fn candidates_11250_to_11499_miss() {
    assert_all_miss(11250, 11499);
}

#[test]
fn candidates_11500_to_11749_miss() {
    assert_all_miss(11500, 11749);
}

#[test]
fn candidates_11750_to_11999_miss() {
    assert_all_miss(11750, 11999);
}

#[test]
fn candidates_12000_to_12249_miss() {
    assert_all_miss(12000, 12249);
}

#[test]
fn candidates_12250_to_12499_miss() {
    assert_all_miss(12250, 12499);
}

#[test]
fn candidates_12500_to_12749_miss() {
    assert_all_miss(12500, 12749);
}

#[test]
fn candidates_12750_to_12999_miss() {
    assert_all_miss(12750, 12999);
}

#[test]
fn candidates_13000_to_13249_miss() {
    assert_all_miss(13000, 13249);
}

#[test]
fn candidates_13250_to_13499_miss() {
    assert_all_miss(13250, 13499);
}

#[test]
fn candidates_13500_to_13749_miss() {
    assert_all_miss(13500, 13749);
}

#[test]
fn candidates_13750_to_13999_miss() {
    assert_all_miss(13750, 13999);
}

#[test]
fn candidates_14000_to_14249_miss() {
    assert_all_miss(14000, 14249);
}

#[test]
fn candidates_14250_to_14499_miss() {
    assert_all_miss(14250, 14499);
}

#[test]
fn candidates_14500_to_14749_miss() {
    assert_all_miss(14500, 14749);
}

#[test]
fn candidates_14750_to_14999_miss() {
    assert_all_miss(14750, 14999);
}

#[test]
fn candidates_15000_to_15249_miss() {
    assert_all_miss(15000, 15249);
}

#[test]
fn candidates_15250_to_15499_miss() {
    assert_all_miss(15250, 15499);
}

#[test]
fn candidates_15500_to_15749_miss() {
    assert_all_miss(15500, 15749);
}

#[test]
fn candidates_15750_to_15999_miss() {
    assert_all_miss(15750, 15999);
}

#[test]
fn candidates_16000_to_16249_miss() {
    assert_all_miss(16000, 16249);
}

#[test]
fn candidates_16250_to_16499_miss() {
    assert_all_miss(16250, 16499);
}

#[test]
fn candidates_16500_to_16749_miss() {
    assert_all_miss(16500, 16749);
}

#[test]
fn candidates_16750_to_16999_miss() {
    assert_all_miss(16750, 16999);
}

#[test]
fn candidates_17000_to_17249_miss() {
    assert_all_miss(17000, 17249);
}

#[test]
fn candidates_17250_to_17499_miss() {
    assert_all_miss(17250, 17499);
}

#[test]
fn candidates_17500_to_17749_miss() {
    assert_all_miss(17500, 17749);
}

#[test]
fn candidates_17750_to_17999_miss() {
    assert_all_miss(17750, 17999);
}

#[test]
fn candidates_18000_to_18249_miss() {
    assert_all_miss(18000, 18249);
}

#[test]
fn candidates_18250_to_18499_miss() {
    assert_all_miss(18250, 18499);
}

#[test]
fn candidates_18500_to_18749_miss() {
    assert_all_miss(18500, 18749);
}

#[test]
fn candidates_18750_to_18999_miss() {
    assert_all_miss(18750, 18999);
}

#[test]
fn candidates_19000_to_19249_miss() {
    assert_all_miss(19000, 19249);
}

#[test]
fn candidates_19250_to_19499_miss() {
    assert_all_miss(19250, 19499);
}

#[test]
fn candidates_19500_to_19749_miss() {
    assert_all_miss(19500, 19749);
}

#[test]
fn candidates_19750_to_19999_miss() {
    assert_all_miss(19750, 19999);
}

#[test]
fn candidates_20000_to_20249_miss() {
    assert_all_miss(20000, 20249);
}

#[test]
fn candidates_20250_to_20499_miss() {
    assert_all_miss(20250, 20499);
}

#[test]
fn candidates_20500_to_20749_miss() {
    assert_all_miss(20500, 20749);
}

#[test]
fn candidates_20750_to_20999_miss() {
    assert_all_miss(20750, 20999);
}

#[test]
fn candidates_21000_to_21249_miss() {
    assert_all_miss(21000, 21249);
}

#[test]
fn candidates_21250_to_21499_miss() {
    assert_all_miss(21250, 21499);
}

#[test]
fn candidates_21500_to_21749_miss() {
    assert_all_miss(21500, 21749);
}

#[test]
fn candidates_21750_to_21999_miss() {
    assert_all_miss(21750, 21999);
}

#[test]
fn candidates_22000_to_22249_miss() {
    assert_all_miss(22000, 22249);
}

#[test]
fn candidates_22250_to_22499_miss() {
    assert_all_miss(22250, 22499);
}

#[test]
fn candidates_22500_to_22749_miss() {
    assert_all_miss(22500, 22749);
}

#[test]
fn candidates_22750_to_22999_miss() {
    assert_all_miss(22750, 22999);
}

#[test]
fn candidates_23000_to_23249_miss() {
    assert_all_miss(23000, 23249);
}

#[test]
fn candidates_23250_to_23499_miss() {
    assert_all_miss(23250, 23499);
}

#[test]
fn candidates_23500_to_23749_miss() {
    assert_all_miss(23500, 23749);
}

#[test]
fn candidates_23750_to_23999_miss() {
    assert_all_miss(23750, 23999);
}

#[test]
fn candidates_24000_to_24249_miss() {
    assert_all_miss(24000, 24249);
}

#[test]
fn candidates_24250_to_24499_miss() {
    assert_all_miss(24250, 24499);
}

#[test]
fn candidates_24500_to_24749_miss() {
    assert_all_miss(24500, 24749);
}

#[test]
fn candidates_24750_to_24999_miss() {
    assert_all_miss(24750, 24999);
}

#[test]
fn candidates_25000_to_25249_miss() {
    assert_all_miss(25000, 25249);
}

#[test]
fn candidates_25250_to_25499_miss() {
    assert_all_miss(25250, 25499);
}
