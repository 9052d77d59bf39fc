use wave_gen::{Clock, Wave, WaveDisplay, WaveType};

fn bits(w: &Wave) -> Vec<u8> {
    (0..w.len()).map(|i| w.sample(i).bool() as u8).collect()
}

#[test]
fn clock_pattern_and_phase_rotation() {
    let mut w = Wave::new("clk".to_string(), 8);
    w.set_type(WaveType::Clock(Clock { period: 4, duty: 2, phase: 0 }));
    assert_eq!(bits(&w), vec![1, 1, 0, 0, 1, 1, 0, 0]);
    w.set_type(WaveType::Clock(Clock { period: 4, duty: 2, phase: 1 }));
    assert_eq!(bits(&w), vec![1, 0, 0, 1, 1, 0, 0, 1]);
    assert_eq!(w.export_type(), "wire");
    let (lo, hi) = w.min_max().unwrap();
    assert_eq!((lo.to_dec(false), hi.to_dec(false)), ("0".to_string(), "1".to_string()));
}

#[test]
fn default_clock() {
    let c = Clock::new();
    assert_eq!((c.period, c.duty, c.phase), (2, 1, 0));
}

#[test]
fn set_len_regenerates_clock() {
    let mut w = Wave::new("clk".to_string(), 2);
    w.set_type(WaveType::Clock(Clock::new()));
    w.set_len(5);
    assert_eq!(bits(&w), vec![1, 0, 1, 0, 1]);
    w.set_len(3);
    assert_eq!(bits(&w), vec![1, 0, 1]);
}

#[test]
fn register_type_export_and_names() {
    let mut w = Wave::new("my sig".to_string(), 4);
    w.set_type(WaveType::Reg(12));
    assert_eq!(w.export_type(), "reg [12:0]");
    assert_eq!(w.name(), "my_sig");
    assert_eq!(w.reg_size(), 12);
    assert_eq!(w.display_mode_of(), WaveDisplay::Hex);
    assert_eq!(w.memb_text(), "000000000000\n".repeat(4));
}

#[test]
fn edit_single_sample_and_bulk() {
    let mut w = Wave::new("r".to_string(), 4);
    w.set_type(WaveType::Reg(8));
    assert!(w.begin_edit(2));
    w.edit_input("0x2a".to_string());
    w.commit_edit();
    assert_eq!(w.sample(2).to_hex(), "2a");
    assert_eq!(w.sample(1).to_hex(), "00");
    let (_, hi) = w.min_max().unwrap();
    assert_eq!(hi.to_hex(), "2a");

    w.select(0);
    w.select(3);
    assert!(w.begin_edit(1));
    w.edit_input("0x1ff".to_string());
    w.edit_input("0x07".to_string());
    w.commit_edit();
    assert_eq!(w.sample(0).to_hex(), "07");
    assert_eq!(w.sample(1).to_hex(), "00");
    assert_eq!(w.sample(3).to_hex(), "07");
}

#[test]
fn clock_samples_cannot_be_edited() {
    let mut w = Wave::new("clk".to_string(), 4);
    w.set_type(WaveType::Clock(Clock::new()));
    assert!(!w.begin_edit(0));
}

#[test]
fn type_change_commits_only_valid_proposals() {
    let mut w = Wave::new("a".to_string(), 6);
    assert!(w.begin_clock_change());
    w.propose_type(WaveType::Clock(Clock { period: 0, duty: 0, phase: 0 }));
    assert!(!w.commit_type_change());
    w.propose_type(WaveType::Clock(Clock { period: 3, duty: 1, phase: 0 }));
    assert!(w.commit_type_change());
    assert_eq!(bits(&w), vec![1, 0, 0, 1, 0, 0]);
    assert!(w.begin_reg_change());
    w.cancel();
    assert!(matches!(w.wave_type(), WaveType::Clock(_)));
}

#[test]
fn extend_by_last_repeats_last_sample() {
    let mut w = Wave::new("r".to_string(), 2);
    w.set_type(WaveType::Reg(4));
    w.begin_edit(1);
    w.edit_input("0x9".to_string());
    w.commit_edit();
    w.extend_by_last(5);
    let hex: Vec<String> = (0..w.len()).map(|i| w.sample(i).to_hex()).collect();
    assert_eq!(hex, vec!["0", "9", "9", "9", "9"]);
    w.extend_by_last(3);
    assert_eq!(w.len(), 5);
}

#[test]
fn wire_edit_toggles_and_prefill_follows_display() {
    let mut w = Wave::new("w".to_string(), 3);
    assert!(w.begin_edit(1));
    w.edit_toggle();
    w.commit_edit();
    assert!(w.sample(1).bool());
    assert!(!w.sample(0).bool());

    let mut r = Wave::new("r".to_string(), 2);
    r.set_type(WaveType::Reg(8));
    r.set_display(WaveDisplay::Decimal(wave_gen::WaveSign::Signed));
    assert!(r.begin_edit(0));
    r.edit_prefill();
    match r.state() {
        wave_gen::WaveState::Edit(e) => {
            assert_eq!(e.current_value.as_deref(), Some("000"));
            assert!(e.error.is_none());
        }
        _ => panic!("expected an edit"),
    }
    r.edit_input("0x1zz".to_string());
    match r.state() {
        wave_gen::WaveState::Edit(e) => assert!(e.error.is_some()),
        _ => panic!("expected an edit"),
    }
    r.cancel();
    assert!(matches!(r.state(), wave_gen::WaveState::Show));
}

#[test]
fn selection_is_a_set_and_clears() {
    let mut w = Wave::new("w".to_string(), 4);
    w.select(2);
    w.select(2);
    w.select(0);
    assert!(w.begin_edit(3));
    w.edit_toggle();
    w.commit_edit();
    let b: Vec<bool> = (0..4).map(|i| w.sample(i).bool()).collect();
    assert_eq!(b, vec![true, false, true, false]);
    w.clear_selection();
    assert!(w.begin_edit(3));
    w.edit_toggle();
    w.commit_edit();
    assert!(w.sample(3).bool());
}

#[test]
fn set_len_grows_with_one_bit_zero_samples() {
    let mut w = Wave::new("r".to_string(), 1);
    w.set_type(WaveType::Reg(4));
    w.set_len(3);
    assert_eq!(w.len(), 3);
    assert_eq!(w.sample(0).bit_width(), 4);
    assert_eq!(w.sample(2).bit_width(), 1);
    assert_eq!(w.sample(2).to_hex(), "0");
    assert!(!w.sample(2).negative());
    w.set_len(0);
    assert!(w.min_max().is_none());
}

#[test]
fn clock_proposals_are_bounded_by_the_timeline() {
    let mut w = Wave::new("c".to_string(), 4);
    assert!(w.begin_clock_change());
    w.propose_type(WaveType::Clock(Clock { period: 5, duty: 1, phase: 0 }));
    assert!(!w.commit_type_change());
    w.propose_type(WaveType::Clock(Clock { period: 4, duty: 1, phase: 5 }));
    assert!(!w.commit_type_change());
    w.propose_type(WaveType::Clock(Clock { period: 4, duty: 1, phase: 4 }));
    assert!(w.commit_type_change());
    assert_eq!(bits(&w), vec![1, 0, 0, 0]);
}

#[test]
fn set_last_value_widens_extrema() {
    let mut w = Wave::new("r".to_string(), 3);
    w.set_type(WaveType::Reg(8));
    let mut v = wave_gen::BitValue::new(8);
    v.parse_from("0x40").unwrap();
    w.set_last_value(v);
    let (lo, hi) = w.min_max().unwrap();
    assert_eq!((lo.to_hex(), hi.to_hex()), ("00".to_string(), "40".to_string()));
}
