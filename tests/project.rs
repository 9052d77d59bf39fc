use wave_gen::{
    apply_settings, export_data, sweep_deleted, ExportError, ProjectExport, ProjectSettings, Wave,
    WaveType,
};

#[test]
fn sweep_removes_exactly_the_deleted_waves_in_order() {
    let mut waves: Vec<Wave> = (0..5).map(|i| Wave::new(format!("w{}", i), 2)).collect();
    waves[1].mark_deleted();
    waves[3].mark_deleted();
    sweep_deleted(&mut waves);
    let names: Vec<String> = waves.iter().map(|w| w.name()).collect();
    assert_eq!(names, vec!["w0", "w2", "w4"]);
}

#[test]
fn settings_resize_every_wave() {
    let mut waves = vec![Wave::new("a".to_string(), 16), Wave::new("b".to_string(), 16)];
    let mut settings = ProjectSettings::new();
    assert_eq!(settings.max_time, 16);
    apply_settings(&mut waves, &mut settings, ProjectSettings { max_time: 4 });
    assert!(waves.iter().all(|w| w.len() == 4));
    assert_eq!(settings.max_time, 4);
}

#[test]
fn export_records() {
    assert_eq!(export_data(&Vec::new()).unwrap_err(), ExportError::NoSignals);
    let mut a = Wave::new("data in".to_string(), 3);
    a.set_type(WaveType::Reg(8));
    let d = export_data(&vec![a]).unwrap();
    assert_eq!(d.end_time, 6);
    let v = &d.variables[0];
    assert_eq!(v.tp, "reg [8:0]");
    assert_eq!(v.name, "data_in");
    assert_eq!(v.name_data, "data_in_data");
    assert_eq!(v.index, "data_in_index");
    assert_eq!(v.name_file, "data_in_file.memb");
    assert_eq!(v.memory_size, 3);
    let e = ProjectExport::new();
    assert!(e.generate_sv && e.generate_mem);
    assert_eq!(e.export_folder, "./test");
}

#[test]
fn added_waves_are_numbered_wires() {
    let mut waves: Vec<Wave> = Vec::new();
    wave_gen::add_wave(&mut waves, 5);
    wave_gen::add_wave(&mut waves, 5);
    assert_eq!(waves[1].raw_name(), "Wire 1");
    assert_eq!(waves[1].name(), "Wire_1");
    assert_eq!(waves[0].len(), 5);
    assert_eq!(waves[0].wave_type(), WaveType::Wire);
}
