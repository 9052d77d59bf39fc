use wave_gen::{import_records, import_vcd, DumpCommand, ImportError, VarDecl, VarKind};

const DUMP: &str = "$timescale 1 s $end
$scope module top $end
$var wire 1 ! a $end
$upscope $end
$enddefinitions $end
#0
0!
#5
1!
#10
0!
";

#[test]
fn wire_changes_fill_the_timeline() {
    let waves = import_vcd(DUMP.as_bytes(), false, false).unwrap();
    assert_eq!(waves.len(), 1);
    let w = &waves[0];
    assert_eq!(w.name(), "top.a");
    let bits: Vec<bool> = (0..w.len()).map(|i| w.sample(i).bool()).collect();
    assert!(bits[0..5].iter().all(|b| !b));
    assert!(bits[5..10].iter().all(|b| *b));
    assert!(bits[9]);
    assert_eq!(w.len(), 11);
    assert!(!bits[10]);
}

#[test]
fn unknown_and_high_impedance_bits_are_replaced() {
    let dump = "$scope module m $end
$var reg 4 # r $end
$upscope $end
$enddefinitions $end
#0
bx1z0 #
";
    let w = import_vcd(dump.as_bytes(), true, false).unwrap();
    assert_eq!(w[0].sample(0).to_bin(), "1100");
    let w = import_vcd(dump.as_bytes(), false, true).unwrap();
    assert_eq!(w[0].sample(0).to_bin(), "0110");
}

#[test]
fn bad_header_fails_the_import() {
    let unbalanced = "$upscope $end\n$enddefinitions $end\n";
    assert!(matches!(import_vcd(unbalanced.as_bytes(), false, false), Err(ImportError::Header)));
    let open_scope = "$scope module m $end\n$enddefinitions $end\n";
    assert!(matches!(import_vcd(open_scope.as_bytes(), false, false), Err(ImportError::Header)));
    let no_end = "$scope module m $end\n$upscope $end\n";
    assert!(matches!(import_vcd(no_end.as_bytes(), false, false), Err(ImportError::Header)));
    let change_in_header = "$var wire 1 ! a $end\n1!\n$enddefinitions $end\n";
    assert!(matches!(import_vcd(change_in_header.as_bytes(), false, false), Err(ImportError::Header)));
}

#[test]
fn unparsable_dump_fails_the_import() {
    assert!(matches!(import_vcd(b"$var wire 1 ! a $end\n#x\n", false, false), Err(ImportError::Unreadable)));
}

#[test]
fn records_replay_per_code() {
    let decls = vec![
        VarDecl { kind: VarKind::Wire, size: 2, code: "a".to_string(), name: "x".to_string() },
        VarDecl { kind: VarKind::Other, size: 1, code: "b".to_string(), name: "y".to_string() },
        VarDecl { kind: VarKind::Reg, size: 600, code: "c".to_string(), name: "z".to_string() },
    ];
    let recs = vec![
        DumpCommand::Timestamp(4),
        DumpCommand::Change("a".to_string(), "11".to_string()),
        DumpCommand::Change("a".to_string(), "111".to_string()),
        DumpCommand::Timestamp(6),
    ];
    let w = import_records(&decls, &recs, 1, 2, false, false);
    assert_eq!(w.len(), 1);
    let hex: Vec<String> = (0..w[0].len()).map(|i| w[0].sample(i).to_bin()).collect();
    assert_eq!(hex, vec!["00", "00", "11", "11"]);
}

#[test]
fn timescale_unit_divides_timestamps() {
    let dump = "$timescale 1 ms $end
$scope module m $end
$var wire 1 ! a $end
$upscope $end
$enddefinitions $end
#0
0!
#3000
1!
";
    let w = import_vcd(dump.as_bytes(), false, false).unwrap();
    assert_eq!(w[0].len(), 4);
    assert!(w[0].sample(3).bool());
    assert!(!w[0].sample(2).bool());
}

#[test]
fn timescale_count_multiplies_timestamps() {
    let dump = "$timescale 100 s $end
$var wire 1 ! a $end
$enddefinitions $end
#0
0!
#1
1!
";
    let w = import_vcd(dump.as_bytes(), false, false).unwrap();
    assert_eq!(w[0].len(), 101);
    assert!(w[0].sample(100).bool());
    assert!(!w[0].sample(99).bool());
}

#[test]
fn too_wide_changes_leave_the_signal_alone() {
    let dump = "$scope module m $end
$var reg 2 # r $end
$upscope $end
$enddefinitions $end
#0
b11 #
b111 #
";
    let w = import_vcd(dump.as_bytes(), false, false).unwrap();
    assert_eq!(w[0].sample(0).to_bin(), "11");
}

#[test]
fn nested_scopes_give_dotted_names() {
    let dump = "$var wire 1 ! top_level $end
$scope module top $end
$scope module sub $end
$var reg 3 \" x $end
$upscope $end
$var integer 8 # n $end
$var event 1 $ e $end
$upscope $end
$enddefinitions $end
#1
b101 \"
";
    let waves = import_vcd(dump.as_bytes(), false, false).unwrap();
    let mut names: Vec<String> = waves.iter().map(|w| w.raw_name()).collect();
    names.sort();
    assert_eq!(names, vec![".top_level", "top.n", "top.sub.x"]);
    let x = waves.iter().find(|w| w.raw_name() == "top.sub.x").unwrap();
    assert_eq!(x.export_type(), "reg [3:0]");
    assert_eq!(x.len(), 2);
    assert_eq!(x.sample(1).to_bin(), "101");
    assert_eq!(x.sample(0).to_bin(), "000");
}
