use std::sync::Arc;
use syl_elab::collect::DriverFactsCollector;
use syl_elab::eir::{
    EirDesign, EirDesignFacts, EirDrive, EirDriveInput, EirDriveKind, EirInstance, EirItem,
    EirModule, EirObject, EirObjectInput, EirObjectKind, EirRawDesign, EirRead,
};
use syl_elab::expr::{EirBound, EirExpr, EirPlace};
use syl_elab::facts::{
    CreateFact, CreateKind, DriveEffect, DriveFact, EirExpansion, EirOrigin, EirSignalActivity,
    ReadFact,
};
use syl_elab::guard::{EirGuard, Span};
use syl_elab::place::{DriverObject, DriverPlace, ObjectId};
use syl_elab::source_cells::{OpaqueItemKind, OpaqueItemSummary, OpaqueSummaryTable};
use syl_elab::summary::{CellSummaryCollector, DriverCellSummary};

fn expanded(callable: &str, instance: &str, at: u32) -> EirOrigin {
    EirOrigin::new(
        Span::new_in(3, at, at + 2),
        vec![EirExpansion::new(callable, instance, Span::new_in(3, 100 + at, 110 + at))],
    )
}

fn plain() -> EirOrigin {
    EirOrigin::new(Span::new_in(3, 0, 1), Vec::new())
}

fn object_place(id: usize, name: &str) -> DriverPlace {
    DriverPlace::Object(DriverObject::new(ObjectId::new(id), name))
}

fn drive_fact(place: DriverPlace, origin: EirOrigin) -> DriveFact {
    DriveFact::new("Top", place, DriveEffect::Continuous, None, EirGuard::root(), origin)
}

#[test]
fn summaries_group_facts_by_expansion_stack_in_key_order() {
    let drives = vec![
        drive_fact(object_place(0, "a"), expanded("Cell", "u1", 20)),
        drive_fact(object_place(1, "b"), expanded("Cell", "u0", 10)),
        drive_fact(object_place(1, "b"), expanded("Cell", "u0", 10)),
        drive_fact(object_place(2, "c"), plain()),
    ];
    let reads = vec![ReadFact::new("Top", object_place(0, "a"), EirGuard::root(), expanded("Cell", "u0", 10))];
    let creates = vec![CreateFact::new(
        "Top",
        "tmp",
        ObjectId::new(3),
        CreateKind::Signal,
        EirSignalActivity::Optional,
        expanded("Cell", "u1", 20),
    )];

    let summaries: Vec<DriverCellSummary> =
        CellSummaryCollector::new(&drives, &reads, &creates).collect().finish();

    assert_eq!(summaries.len(), 2);
    assert_eq!(summaries[0].instance(), "u0");
    assert_eq!(summaries[0].callable(), "Cell");
    assert_eq!(summaries[0].drives().len(), 1);
    assert_eq!(summaries[0].drives()[0].display(), "b");
    assert_eq!(summaries[0].reads().len(), 1);
    assert_eq!(summaries[0].reads()[0].display(), "a");
    assert!(summaries[0].creates().is_empty());
    assert_eq!(summaries[1].instance(), "u1");
    assert_eq!(summaries[1].drives().len(), 1);
    assert_eq!(summaries[1].creates(), &["tmp".to_string()]);
    assert_eq!(summaries[1].origin().span(), Span::new_in(3, 20, 22));
}

#[test]
fn facts_outside_every_expansion_have_no_summary() {
    let drives = vec![drive_fact(object_place(0, "a"), plain())];
    let summaries = CellSummaryCollector::new(&drives, &[], &[]).collect().finish();

    assert!(summaries.is_empty());
}

#[test]
fn summary_lists_each_place_and_name_once() {
    let mut summary = DriverCellSummary::new("Cell", "u0", plain());
    summary.add_drive(object_place(0, "a"));
    summary.add_drive(object_place(0, "a"));
    summary.add_read(object_place(1, "b"));
    summary.add_read(object_place(1, "b"));
    summary.add_create("tmp");
    summary.add_create("tmp");
    summary.add_create("other");

    assert_eq!(summary.drives().len(), 1);
    assert_eq!(summary.reads().len(), 1);
    assert_eq!(summary.creates(), &["tmp".to_string(), "other".to_string()]);
}

#[test]
fn facts_collector_builds_cell_summaries() {
    let origin = expanded("Counter", "c0", 4);
    let design = EirDesign::from_parts(
        Arc::new(EirRawDesign::new(vec![EirModule::new("Top", Vec::new(), Vec::new(), Vec::new())])),
        Arc::new(EirDesignFacts::new(
            vec![EirObject::new(EirObjectInput {
                module: "Top".to_string(),
                name: "count".to_string(),
                width: EirBound::from_source("8"),
                kind: EirObjectKind::Storage,
                activity: EirSignalActivity::Required,
                origin: origin.copy(),
            })],
            vec![EirDrive::new(EirDriveInput {
                module: "Top".to_string(),
                target: EirPlace::Ident("count".to_string()),
                kind: EirDriveKind::Next,
                value: Some(EirExpr::Int(0)),
                guard: EirGuard::root(),
                origin: origin.copy(),
            })],
            vec![EirRead::new("Top", EirPlace::Ident("count".to_string()), EirGuard::root(), origin)],
        )),
    );
    let facts = match DriverFactsCollector::new(&design).collect() {
        Ok(facts) => facts,
        Err(errors) => panic!("facts pass should succeed: {errors:?}"),
    };

    assert_eq!(facts.summary_cells().len(), 1);
    let summary = &facts.summary_cells()[0];
    assert_eq!(summary.callable(), "Counter");
    assert_eq!(summary.instance(), "c0");
    assert_eq!(summary.drives()[0].display(), "count.next");
    assert_eq!(summary.reads()[0].display(), "count");
    assert_eq!(summary.creates(), &["count".to_string()]);
}

fn at(start: u32) -> EirOrigin {
    EirOrigin::new(Span::new_in(5, start, start + 10), Vec::new())
}

fn vendor_instance(module: &str, name: &str, origin: EirOrigin) -> EirItem {
    EirItem::Instance(EirInstance::new(module, Vec::new(), name, name, Vec::new(), origin))
}

fn source_cell_design() -> EirDesign {
    let items = vec![
        vendor_instance("Vendor", "u_late", at(40)),
        EirItem::SymbolicStaticIf {
            cond: EirExpr::Int(1),
            label: "g".to_string(),
            then_items: vec![vendor_instance("Vendor", "u_early", at(10))],
            else_items: vec![vendor_instance("Vendor", "u_again", at(40))],
            origin: at(0),
        },
        vendor_instance("Lib", "u_lib", at(60)),
        vendor_instance("Unknown", "u_unknown", at(70)),
    ];
    EirDesign::from_parts(
        Arc::new(EirRawDesign::new(vec![EirModule::new("Top", Vec::new(), Vec::new(), items)])),
        Arc::new(EirDesignFacts::new(
            vec![EirObject::new(EirObjectInput {
                module: "Top".to_string(),
                name: "w".to_string(),
                width: EirBound::from_source("1"),
                kind: EirObjectKind::Signal,
                activity: EirSignalActivity::Required,
                origin: at(0),
            })],
            vec![
                EirDrive::new(EirDriveInput {
                    module: "Top".to_string(),
                    target: EirPlace::Ident("w".to_string()),
                    kind: EirDriveKind::Continuous,
                    value: Some(EirExpr::Int(0)),
                    guard: EirGuard::root(),
                    origin: at(40),
                }),
                EirDrive::new(EirDriveInput {
                    module: "Top".to_string(),
                    target: EirPlace::Ident("w".to_string()),
                    kind: EirDriveKind::Continuous,
                    value: Some(EirExpr::Int(1)),
                    guard: EirGuard::root(),
                    origin: at(40),
                }),
            ],
            vec![
                EirRead::new("Top", EirPlace::Ident("w".to_string()), EirGuard::root(), at(10)),
                EirRead::new("Top", EirPlace::Ident("w".to_string()), EirGuard::root(), at(60)),
            ],
        )),
    )
}

fn opaque_table() -> OpaqueSummaryTable {
    let mut table = OpaqueSummaryTable::new();
    table.insert("Vendor", OpaqueItemSummary::new(OpaqueItemKind::SourceCell, "vendor_cell", Vec::new(), Vec::new()));
    table.insert("Lib", OpaqueItemSummary::new(OpaqueItemKind::Other, "lib_cell", Vec::new(), Vec::new()));
    table
}

#[test]
fn source_cell_instances_get_summaries_in_site_order() {
    let design = source_cell_design();
    let table = opaque_table();
    let facts = match DriverFactsCollector::with_opaque_summaries(&design, &table).collect() {
        Ok(facts) => facts,
        Err(errors) => panic!("facts pass should succeed: {errors:?}"),
    };

    let summaries = facts.summary_cells();
    assert_eq!(summaries.len(), 2);
    assert_eq!(summaries[0].callable(), "vendor_cell");
    assert_eq!(summaries[0].instance(), "u_early");
    assert!(summaries[0].drives().is_empty());
    assert_eq!(summaries[0].reads().len(), 1);
    assert_eq!(summaries[0].reads()[0].display(), "w");
    assert_eq!(summaries[1].instance(), "u_late");
    assert_eq!(summaries[1].origin().span(), Span::new_in(5, 40, 50));
    assert_eq!(summaries[1].drives().len(), 1);
    assert_eq!(summaries[1].drives()[0].display(), "w");
    assert!(summaries[1].reads().is_empty());
    assert!(summaries[1].creates().is_empty());
}

#[test]
fn instances_without_a_source_cell_summary_get_none() {
    let design = source_cell_design();
    let facts = match DriverFactsCollector::new(&design).collect() {
        Ok(facts) => facts,
        Err(errors) => panic!("facts pass should succeed: {errors:?}"),
    };

    assert!(facts.summary_cells().is_empty());
}

#[test]
fn opaque_table_keeps_the_last_summary_of_a_module() {
    let mut table = opaque_table();
    table.insert("Lib", OpaqueItemSummary::new(
        OpaqueItemKind::SourceCell,
        "lib_v2",
        vec!["q".to_string()],
        vec!["d".to_string()],
    ));
    let copy = table.copy();

    let lib = copy.get("Lib").expect("Lib must be listed");
    assert_eq!(lib.kind(), OpaqueItemKind::SourceCell);
    assert_eq!(lib.callable(), "lib_v2");
    assert_eq!(lib.driven_fields(), &["q".to_string()]);
    assert_eq!(lib.consumed_fields(), &["d".to_string()]);
    assert!(copy.get("Missing").is_none());
    assert_eq!(table.get("Vendor").map(|s| s.callable()), Some("vendor_cell"));
}
