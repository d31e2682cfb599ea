use syl_elab::design::EirConnection;
use syl_elab::drc::DriverError;
use syl_elab::eir::{
    EirCellExpansion, EirDesignFacts, EirDirection, EirDriveKind, EirInstance, EirItem, EirModule,
    EirObjectKind, EirPort,
};
use syl_elab::eir_facts::EirFactCollector;
use syl_elab::expr::{EirBinaryOp, EirBound, EirExpr, EirPlace};
use syl_elab::facts::{EirOrigin, EirSignalActivity};
use syl_elab::guard::{EirGuardFrame, Span};
use syl_elab::source_cells::{OpaqueItemKind, OpaqueItemSummary, OpaqueSummaryTable};

fn at(start: u32) -> EirOrigin {
    EirOrigin::new(Span::new_in(7, start, start + 5), Vec::new())
}

fn port(direction: EirDirection, name: &str) -> EirPort {
    EirPort::new(direction, EirBound::from_source("1"), name, at(0))
}

fn ident_name(place: &EirPlace) -> &str {
    match place {
        EirPlace::Ident(name) => name.as_str(),
        _ => panic!("expected a plain name, got {place:?}"),
    }
}

fn sub_module() -> EirModule {
    EirModule::new(
        "Sub",
        Vec::new(),
        vec![
            port(EirDirection::In, "a"),
            port(EirDirection::Out, "y"),
            port(EirDirection::InOut, "io"),
        ],
        Vec::new(),
    )
}

fn instance(module: &str, connections: Vec<EirConnection>, origin: EirOrigin) -> EirItem {
    EirItem::Instance(EirInstance::new(module, Vec::new(), "u0", "u0", connections, origin))
}

fn collect(modules: &[EirModule]) -> EirDesignFacts {
    match EirFactCollector::collect(modules, &OpaqueSummaryTable::new()) {
        Ok(facts) => facts,
        Err(error) => panic!("fact collection should succeed: {error:?}"),
    }
}

#[test]
fn items_give_objects_drives_and_reads_in_order() {
    let top = EirModule::new(
        "Top",
        Vec::new(),
        Vec::new(),
        vec![
            EirItem::Signal {
                width: EirBound::from_source("8"),
                name: "s".to_string(),
                activity: EirSignalActivity::Optional,
                origin: at(1),
            },
            EirItem::Storage { width: EirBound::from_source("4"), name: "r".to_string(), origin: at(2) },
            EirItem::Drive {
                lhs: EirPlace::Ident("s".to_string()),
                rhs: EirExpr::ident("x"),
                reads: vec![EirExpr::ident("x")],
                origin: at(3),
            },
            EirItem::ClockedStorage {
                clock: EirExpr::ident("clk"),
                target: EirPlace::Ident("r".to_string()),
                reset: None,
                next: EirExpr::ident("s"),
                reads: vec![EirExpr::ident("s")],
                origin: at(4),
            },
        ],
    );
    let facts = collect(&[top]);

    assert_eq!(facts.objects().len(), 2);
    assert_eq!(facts.objects()[0].name(), "s");
    assert_eq!(facts.objects()[0].kind(), EirObjectKind::Signal);
    assert_eq!(facts.objects()[0].activity(), EirSignalActivity::Optional);
    assert_eq!(facts.objects()[1].name(), "r");
    assert_eq!(facts.objects()[1].kind(), EirObjectKind::Storage);
    assert_eq!(facts.objects()[1].activity(), EirSignalActivity::Required);
    assert_eq!(facts.drives().len(), 2);
    assert_eq!(facts.drives()[0].kind(), EirDriveKind::Continuous);
    assert!(matches!(facts.drives()[0].value(), Some(EirExpr::Ident(name)) if name == "x"));
    assert_eq!(facts.drives()[1].kind(), EirDriveKind::Next);
    assert!(facts.drives()[1].value().is_none());
    assert_eq!(ident_name(facts.drives()[1].target_place()), "r");
    assert_eq!(facts.reads().len(), 2);
    assert_eq!(ident_name(facts.reads()[0].source_place()), "x");
    assert_eq!(facts.reads()[1].origin().span(), Span::new_in(7, 4, 9));
    assert!(facts.drives()[0].guard().is_root());
}

#[test]
fn static_scopes_become_guard_frames() {
    let top = EirModule::new(
        "Top",
        Vec::new(),
        Vec::new(),
        vec![
            EirItem::SymbolicStaticIf {
                cond: EirExpr::ident("P"),
                label: "g".to_string(),
                then_items: vec![EirItem::Drive {
                    lhs: EirPlace::Ident("a".to_string()),
                    rhs: EirExpr::Int(1),
                    reads: Vec::new(),
                    origin: at(10),
                }],
                else_items: vec![EirItem::Drive {
                    lhs: EirPlace::Ident("a".to_string()),
                    rhs: EirExpr::Int(0),
                    reads: Vec::new(),
                    origin: at(11),
                }],
                origin: at(9),
            },
            EirItem::SymbolicStaticFor {
                index: "i".to_string(),
                start: EirExpr::Int(0),
                end: EirExpr::ident("N"),
                label: "loop".to_string(),
                items: vec![EirItem::CellExpansion(EirCellExpansion::new(
                    "Cell",
                    "c0",
                    vec![EirItem::Drive {
                        lhs: EirPlace::Ident("b".to_string()),
                        rhs: EirExpr::Int(2),
                        reads: Vec::new(),
                        origin: at(13),
                    }],
                ))],
                origin: at(12),
            },
        ],
    );
    let facts = collect(&[top]);

    assert_eq!(facts.drives().len(), 3);
    let then_frames = facts.drives()[0].guard().frames();
    assert_eq!(then_frames.len(), 1);
    assert!(matches!(&then_frames[0], EirGuardFrame::IfThen { label } if label.display() == "g"));
    assert!(matches!(
        &facts.drives()[1].guard().frames()[0],
        EirGuardFrame::IfElse { label } if label.span == Span::new_in(7, 9, 14)
    ));
    match &facts.drives()[2].guard().frames()[0] {
        EirGuardFrame::Loop { label, index, start, end } => {
            assert_eq!(label.display(), "loop");
            assert_eq!(index, "i");
            assert_eq!(start.source(), "0");
            assert_eq!(end.source(), "N");
        }
        other => panic!("expected a loop frame, got {other:?}"),
    }
}

#[test]
fn instance_ports_decide_reads_and_drives() {
    let top = EirModule::new(
        "Top",
        Vec::new(),
        Vec::new(),
        vec![instance(
            "Sub",
            vec![
                EirConnection::new(
                    "a",
                    EirExpr::binary(EirBinaryOp::Add, EirExpr::ident("w"), EirExpr::ident("v")),
                ),
                EirConnection::new("y", EirExpr::ident("t")),
                EirConnection::new("io", EirExpr::ident("bus")),
            ],
            at(20),
        )],
    );
    let facts = collect(&[sub_module(), top]);

    assert_eq!(facts.reads().len(), 3);
    assert_eq!(ident_name(facts.reads()[0].source_place()), "v");
    assert_eq!(ident_name(facts.reads()[1].source_place()), "w");
    assert_eq!(ident_name(facts.reads()[2].source_place()), "bus");
    assert_eq!(facts.reads()[0].module(), "Top");
    assert_eq!(facts.drives().len(), 2);
    assert_eq!(ident_name(facts.drives()[0].target_place()), "t");
    assert!(facts.drives()[0].value().is_none());
    assert_eq!(ident_name(facts.drives()[1].target_place()), "bus");
    assert!(matches!(
        facts.drives()[1].value(),
        Some(EirExpr::Unsupported { message }) if message == "instance inout enable is unknown"
    ));
    assert_eq!(facts.drives()[1].origin().span(), Span::new_in(7, 20, 25));
}

#[test]
fn instance_of_unknown_module_is_rejected() {
    let top = EirModule::new("Top", Vec::new(), Vec::new(), vec![instance("Missing", Vec::new(), at(30))]);
    let error = match EirFactCollector::collect(&[top], &OpaqueSummaryTable::new()) {
        Ok(_) => panic!("an instance of an unknown module must be rejected"),
        Err(error) => error,
    };

    assert_eq!(
        error.kind,
        DriverError::UnknownHardwareObject { module: "Top".to_string(), name: "Missing".to_string() }
    );
    assert_eq!(error.span, Span::new_in(7, 30, 35));
}

#[test]
fn connection_to_unknown_port_is_rejected() {
    let top = EirModule::new(
        "Top",
        Vec::new(),
        Vec::new(),
        vec![instance("Sub", vec![EirConnection::new("zz", EirExpr::ident("t"))], at(40))],
    );
    let error = match EirFactCollector::collect(&[sub_module(), top], &OpaqueSummaryTable::new()) {
        Ok(_) => panic!("a connection to an unknown port must be rejected"),
        Err(error) => error,
    };

    assert_eq!(
        error.kind,
        DriverError::UnknownParameter { name: "zz".to_string(), callable: "Sub".to_string() }
    );
}

#[test]
fn output_connected_to_a_value_is_rejected() {
    let top = EirModule::new(
        "Top",
        Vec::new(),
        Vec::new(),
        vec![instance("Sub", vec![EirConnection::new("y", EirExpr::Int(3))], at(50))],
    );
    let error = match EirFactCollector::collect(&[sub_module(), top], &OpaqueSummaryTable::new()) {
        Ok(_) => panic!("an output connected to a value must be rejected"),
        Err(error) => error,
    };

    assert_eq!(error.kind, DriverError::UnsupportedHardwareValueExpression);
    assert_eq!(error.span, Span::new_in(7, 50, 55));
}

#[test]
fn read_that_is_not_a_place_is_rejected() {
    let top = EirModule::new(
        "Top",
        Vec::new(),
        Vec::new(),
        vec![EirItem::Drive {
            lhs: EirPlace::Ident("y".to_string()),
            rhs: EirExpr::Int(1),
            reads: vec![EirExpr::Int(1)],
            origin: at(60),
        }],
    );
    let error = match EirFactCollector::collect(&[top], &OpaqueSummaryTable::new()) {
        Ok(_) => panic!("a read that is not a place must be rejected"),
        Err(error) => error,
    };

    assert_eq!(error.kind, DriverError::UnsupportedHardwareValueExpression);
    assert_eq!(error.span, Span::new_in(7, 60, 65));
}

#[test]
fn summarised_module_drives_and_reads_its_fields() {
    let mut table = OpaqueSummaryTable::new();
    table.insert(
        "Vendor",
        OpaqueItemSummary::new(
            OpaqueItemKind::SourceCell,
            "vendor_cell",
            vec!["q".to_string()],
            vec!["d".to_string()],
        ),
    );
    let top = EirModule::new(
        "Top",
        Vec::new(),
        Vec::new(),
        vec![instance(
            "Vendor",
            vec![
                EirConnection::new("d", EirExpr::ident("din")),
                EirConnection::new("q", EirExpr::ident("dout")),
            ],
            at(70),
        )],
    );
    let facts = match EirFactCollector::collect(&[top], &table) {
        Ok(facts) => facts,
        Err(error) => panic!("summarised instance should collect: {error:?}"),
    };

    assert_eq!(facts.drives().len(), 1);
    assert_eq!(ident_name(facts.drives()[0].target_place()), "dout");
    assert_eq!(facts.reads().len(), 1);
    assert_eq!(ident_name(facts.reads()[0].source_place()), "din");
}

#[test]
fn summarised_module_needs_its_fields_connected() {
    let mut table = OpaqueSummaryTable::new();
    table.insert(
        "Vendor",
        OpaqueItemSummary::new(OpaqueItemKind::Other, "vendor_cell", vec!["q".to_string()], Vec::new()),
    );
    let top = EirModule::new("Top", Vec::new(), Vec::new(), vec![instance("Vendor", Vec::new(), at(80))]);
    let error = match EirFactCollector::collect(&[top], &table) {
        Ok(_) => panic!("a summarised field without a connection must be rejected"),
        Err(error) => error,
    };

    assert_eq!(
        error.kind,
        DriverError::UnknownParameter { name: "q".to_string(), callable: "Vendor".to_string() }
    );
}
