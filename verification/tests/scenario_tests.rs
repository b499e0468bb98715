//! End-to-end scenarios: enumeration plus resolution over small module
//! graphs, checked against the statuses, references, and diagnostics each
//! graph must produce.

use renlang::diag::{DiagnosticLevel, FileRange};
use renlang::enumeration::{SourceFile, Sources};
use renlang::namespace::{Declaration, ModuleRef, NameTarget, NameTargetStatus, Namespace,
    Reference};
use renlang::program::Program;
use renlang::semantic::analyze;
use renlang::syntax::{ConstantDeclaration, ExportDeclaration, ExportEntry,
    ExportForwardDeclaration, ExportValue, Forward, Import, ImportDeclaration, ModuleRoot,
    NamespaceDeclaration, NonImport, Token};
use renlang::syntax::Declaration as SyntaxDeclaration;

fn loc(file: &str) -> FileRange {
    FileRange::new(file.to_string(), (0, 0), (0, 1))
}

fn loc_at(file: &str, line: usize, col: usize) -> FileRange {
    FileRange::new(file.to_string(), (line, col), (line, col + 1))
}

fn tok(file: &str, image: &str) -> Token {
    Token { image: image.to_string(), location: loc(file) }
}

fn tok_at(file: &str, image: &str, line: usize, col: usize) -> Token {
    Token { image: image.to_string(), location: loc_at(file, line, col) }
}

fn import_decl(file: &str, module: &str, names: &[(&str, &str)]) -> ImportDeclaration {
    ImportDeclaration {
        location: loc(file),
        module_name: tok(file, module),
        imports: names
            .iter()
            .map(|(import_name, alias)| Import {
                import_name: tok(file, import_name),
                alias_name: tok(file, alias),
            })
            .collect(),
    }
}

fn export_const(file: &str, name: &str) -> NonImport {
    NonImport::Export(ExportDeclaration {
        location: loc(file),
        exports: vec![ExportEntry {
            export_name: tok(file, name),
            value: ExportValue::Decl(SyntaxDeclaration::Constant(ConstantDeclaration {
                location: loc(file),
                name: tok(file, name),
            })),
        }],
    })
}

fn export_local(file: &str, export_name: &str, local: &str) -> NonImport {
    NonImport::Export(ExportDeclaration {
        location: loc(file),
        exports: vec![ExportEntry {
            export_name: tok(file, export_name),
            value: ExportValue::Name(tok(file, local)),
        }],
    })
}

fn forward_decl(file: &str, module: &str, entries: &[(&str, &str)]) -> NonImport {
    NonImport::Forward(ExportForwardDeclaration {
        location: loc(file),
        module_name: tok(file, module),
        forwards: entries
            .iter()
            .map(|(export_name, import_name)| Forward {
                export_name: tok(file, export_name),
                import_name: tok(file, import_name),
            })
            .collect(),
    })
}

fn module(imports: Vec<ImportDeclaration>, items: Vec<NonImport>) -> ModuleRoot {
    ModuleRoot { location: loc("m"), imports, items }
}

fn source(path: &str, root: ModuleRoot) -> SourceFile {
    SourceFile { path: path.to_string(), root: Some(root), diagnostics: vec![] }
}

fn run(entry: &str, files: Vec<SourceFile>) -> (Program, Vec<renlang::diag::Diagnostic>) {
    let sources = Sources { files };
    let result = analyze(entry.to_string(), &sources);
    let program = result.value.expect("analysis should produce a program");
    (program, result.diagnostics)
}

fn module_status<'a>(program: &'a Program, path: &str) -> &'a ModuleRef {
    for (p, status) in &program.modules {
        if p == path {
            return status;
        }
    }
    panic!("module not registered");
}

fn nsid_of(program: &Program, path: &str) -> usize {
    match module_status(program, path) {
        ModuleRef::Success { namespace_id, .. } => *namespace_id,
        _ => panic!("module did not parse successfully"),
    }
}

fn namespace_of<'a>(program: &'a Program, path: &str) -> &'a Namespace {
    &program.namespaces[nsid_of(program, path)]
}

fn local_target<'a>(ns: &'a Namespace, name: &str) -> &'a NameTarget {
    for binding in &ns.locals {
        if binding.name == name.to_string() {
            return &binding.target;
        }
    }
    panic!("no local of that name");
}

fn export_target<'a>(ns: &'a Namespace, name: &str) -> &'a NameTarget {
    for binding in &ns.exports {
        if binding.name == name.to_string() {
            return &binding.target;
        }
    }
    panic!("no export of that name");
}

fn errors(diags: &[renlang::diag::Diagnostic]) -> Vec<&renlang::diag::Diagnostic> {
    diags.iter().filter(|d| matches!(d.level, DiagnosticLevel::Error)).collect()
}

#[test]
fn missing_module_is_dangling_with_one_diagnostic() {
    // module a imports x from "b"; no file resolves for "b"
    let a = module(
        vec![ImportDeclaration {
            location: loc("/r/a.ren"),
            module_name: tok_at("/r/a.ren", "b", 0, 14),
            imports: vec![Import {
                import_name: tok("/r/a.ren", "x"),
                alias_name: tok("/r/a.ren", "x"),
            }],
        }],
        vec![],
    );
    let (program, diags) = run("/r/a.ren", vec![source("/r/a.ren", a)]);
    assert!(matches!(
        module_status(&program, "b"),
        ModuleRef::NotFound { fully_resolved: true }
    ));
    let target = local_target(namespace_of(&program, "/r/a.ren"), "x");
    assert!(matches!(target.status, NameTargetStatus::Dangling));
    assert_eq!(target.references.len(), 1);
    assert_eq!(
        target.references[0],
        Reference::MissingModule { module: "b".to_string(), export_name: Some("x".to_string()) }
    );
    let errs = errors(&diags);
    assert_eq!(errs.len(), 1);
    // the diagnostic points at the import's module string
    assert_eq!(errs[0].location, loc_at("/r/a.ren", 0, 14));
}

#[test]
fn named_import_resolves_to_remote_declaration() {
    // a exports constant y; b imports y from a
    let a = module(vec![], vec![export_const("/r/a.ren", "y")]);
    let b = module(vec![import_decl("/r/b.ren", "./a", &[("y", "y")])], vec![]);
    let (program, diags) = run(
        "/r/b.ren",
        vec![source("/r/a.ren", a), source("/r/b.ren", b)],
    );
    assert_eq!(errors(&diags).len(), 0);
    // the declaration id recorded in a's own registry
    let a_ns = namespace_of(&program, "/r/a.ren");
    let decl_id = match &local_target(a_ns, "y").references[0] {
        Reference::LocalDeclaration { resolved_declaration_id } => *resolved_declaration_id,
        other => panic!("unexpected local reference {:?}", other),
    };
    assert!(matches!(
        program.declarations[decl_id],
        Declaration::Constant { .. }
    ));
    // b's local resolves to that same declaration
    let target = local_target(namespace_of(&program, "/r/b.ren"), "y");
    assert!(matches!(target.status, NameTargetStatus::FullyResolved));
    assert_eq!(target.references.len(), 1);
    assert_eq!(
        target.references[0],
        Reference::RemoteName {
            module: "/r/a.ren".to_string(),
            export_name: "y".to_string(),
            resolved_declaration_id: decl_id,
        }
    );
}

#[test]
fn pure_forward_cycle_shares_the_export_pool() {
    // a and b purely re-export each other; a also exports constant z
    let a = module(
        vec![],
        vec![export_const("/r/a.ren", "z"), forward_decl("/r/a.ren", "./b", &[("*", "*")])],
    );
    let b = module(vec![], vec![forward_decl("/r/b.ren", "./a", &[("*", "*")])]);
    let (program, diags) = run(
        "/r/a.ren",
        vec![source("/r/a.ren", a), source("/r/b.ren", b)],
    );
    assert_eq!(errors(&diags).len(), 0);
    let a_ns = namespace_of(&program, "/r/a.ren");
    let b_ns = namespace_of(&program, "/r/b.ren");
    // b's export set ends up as exactly { z }, resolved to a's declaration
    assert_eq!(b_ns.exports.len(), 1);
    let z = export_target(b_ns, "z");
    assert!(matches!(z.status, NameTargetStatus::FullyResolved));
    assert_eq!(z.references.len(), 1);
    let decl_id = match &export_target(a_ns, "z").references[0] {
        Reference::LocalDeclaration { resolved_declaration_id } => *resolved_declaration_id,
        other => panic!("unexpected reference {:?}", other),
    };
    assert_eq!(
        z.references[0],
        Reference::RemoteName {
            module: "/r/a.ren".to_string(),
            export_name: "z".to_string(),
            resolved_declaration_id: decl_id,
        }
    );
    // a gains nothing from b, which has no exports of its own
    assert_eq!(a_ns.exports.len(), 1);
}

#[test]
fn self_import_of_missing_export() {
    // a imports w from itself; a has no export w
    let a = module(vec![import_decl("/r/a.ren", "./a", &[("w", "w")])], vec![]);
    let (program, diags) = run("/r/a.ren", vec![source("/r/a.ren", a)]);
    assert!(matches!(
        module_status(&program, "/r/a.ren"),
        ModuleRef::Success { .. }
    ));
    let target = local_target(namespace_of(&program, "/r/a.ren"), "w");
    assert!(matches!(target.status, NameTargetStatus::Dangling));
    assert_eq!(target.references.len(), 1);
    assert_eq!(
        target.references[0],
        Reference::MissingExport {
            module: "/r/a.ren".to_string(),
            export_name: "w".to_string(),
        }
    );
    assert_eq!(errors(&diags).len(), 1);
}

#[test]
fn mutual_import_is_circular_not_divergent() {
    // a and b each import v from the other and re-export it; v is never declared
    let a = module(
        vec![import_decl("/r/a.ren", "./b", &[("v", "v")])],
        vec![export_local("/r/a.ren", "v", "v")],
    );
    let b = module(
        vec![import_decl("/r/b.ren", "./a", &[("v", "v")])],
        vec![export_local("/r/b.ren", "v", "v")],
    );
    let (program, diags) = run(
        "/r/a.ren",
        vec![source("/r/a.ren", a), source("/r/b.ren", b)],
    );
    let a_target = local_target(namespace_of(&program, "/r/a.ren"), "v");
    let b_target = local_target(namespace_of(&program, "/r/b.ren"), "v");
    assert!(matches!(a_target.status, NameTargetStatus::Circular));
    assert!(matches!(b_target.status, NameTargetStatus::Circular));
    assert_eq!(a_target.references.len(), 1);
    assert_eq!(b_target.references.len(), 1);
    assert!(matches!(a_target.references[0], Reference::CircularRemote { .. }));
    assert!(matches!(b_target.references[0], Reference::CircularRemote { .. }));
    // one diagnostic per module, two in total
    let errs = errors(&diags);
    assert_eq!(errs.len(), 2);
    let mut files: Vec<String> = errs.iter().map(|d| d.location.path.clone()).collect();
    files.sort();
    assert_eq!(files, vec!["/r/a.ren".to_string(), "/r/b.ren".to_string()]);
}

#[test]
fn missing_module_diagnosed_once_along_a_chain() {
    // a depends on x from b; b forwards x from c; c does not exist
    let a = module(vec![import_decl("/r/a.ren", "./b", &[("x", "x")])], vec![]);
    let b = module(vec![], vec![forward_decl("/r/b.ren", "./c", &[("x", "x")])]);
    let (program, diags) = run(
        "/r/a.ren",
        vec![source("/r/a.ren", a), source("/r/b.ren", b)],
    );
    // exactly one diagnostic, where the missing module was first discovered
    let errs = errors(&diags);
    assert_eq!(errs.len(), 1);
    assert_eq!(errs[0].location.path, "/r/b.ren".to_string());
    // the downstream dependent is silently empty
    let a_target = local_target(namespace_of(&program, "/r/a.ren"), "x");
    assert!(matches!(a_target.status, NameTargetStatus::Empty));
    assert_eq!(a_target.references.len(), 1);
    assert!(matches!(a_target.references[0], Reference::EmptyRemote { .. }));
    // the forward itself dangles
    let b_target = export_target(namespace_of(&program, "/r/b.ren"), "x");
    assert!(matches!(b_target.status, NameTargetStatus::Dangling));
}

#[test]
fn resolving_the_same_graph_twice_is_identical() {
    let build = || {
        let a = module(
            vec![import_decl("/r/a.ren", "./b", &[("q", "q")])],
            vec![export_const("/r/a.ren", "z"), forward_decl("/r/a.ren", "./b", &[("*", "*")])],
        );
        let b = module(
            vec![],
            vec![export_const("/r/b.ren", "q"), forward_decl("/r/b.ren", "./a", &[("*", "*")])],
        );
        vec![source("/r/a.ren", a), source("/r/b.ren", b)]
    };
    let (p1, d1) = run("/r/a.ren", build());
    let (p2, d2) = run("/r/a.ren", build());
    assert_eq!(p1.modules, p2.modules);
    assert_eq!(p1.namespaces, p2.namespaces);
    assert_eq!(p1.declarations, p2.declarations);
    assert_eq!(d1, d2);
}

#[test]
fn registering_a_referenced_module_twice_has_no_extra_effect() {
    // a imports from b twice; b is registered and parsed once
    let a = module(
        vec![
            import_decl("/r/a.ren", "./b", &[("x", "x")]),
            import_decl("/r/a.ren", "./b", &[("q", "q2")]),
        ],
        vec![],
    );
    let b = module(
        vec![],
        vec![export_const("/r/b.ren", "x"), export_const("/r/b.ren", "q")],
    );
    let (program, diags) = run(
        "/r/a.ren",
        vec![source("/r/a.ren", a), source("/r/b.ren", b)],
    );
    assert_eq!(errors(&diags).len(), 0);
    let entries: Vec<_> =
        program.modules.iter().filter(|(p, _)| p == "/r/b.ren").collect();
    assert_eq!(entries.len(), 1);
    assert_eq!(program.namespaces.len(), 2);
    let q2 = local_target(namespace_of(&program, "/r/a.ren"), "q2");
    assert!(matches!(q2.status, NameTargetStatus::FullyResolved));
}

#[test]
fn every_target_reaches_a_terminal_status() {
    // a graph mixing resolved, dangling, and circular outcomes
    let a = module(
        vec![
            import_decl("/r/a.ren", "./b", &[("v", "v")]),
            import_decl("/r/a.ren", "missing", &[("m", "m")]),
        ],
        vec![export_local("/r/a.ren", "v", "v"), export_const("/r/a.ren", "k")],
    );
    let b = module(
        vec![import_decl("/r/b.ren", "./a", &[("v", "v")])],
        vec![export_local("/r/b.ren", "v", "v")],
    );
    let (program, _diags) = run(
        "/r/a.ren",
        vec![source("/r/a.ren", a), source("/r/b.ren", b)],
    );
    for ns in &program.namespaces {
        for binding in &ns.locals {
            assert!(!matches!(binding.target.status, NameTargetStatus::NotResolved));
            assert!(binding.target.dependencies.is_empty());
        }
        for binding in &ns.exports {
            assert!(!matches!(binding.target.status, NameTargetStatus::NotResolved));
            assert!(binding.target.dependencies.is_empty());
        }
    }
}

#[test]
fn aggregate_status_priority_on_targets() {
    let mut t = NameTarget::new();
    t.add_reference(Reference::MissingLocal { local_name: "x".to_string() });
    t.add_reference(Reference::CircularLocal { local_name: "x".to_string() });
    t.add_reference(Reference::LocalDeclaration { resolved_declaration_id: 0 });
    t.set_aggregate_status();
    assert!(matches!(t.status, NameTargetStatus::FullyResolved));

    let mut t = NameTarget::new();
    t.add_reference(Reference::CircularLocal { local_name: "x".to_string() });
    t.add_reference(Reference::MissingLocal { local_name: "x".to_string() });
    t.set_aggregate_status();
    assert!(matches!(t.status, NameTargetStatus::Dangling));

    let mut t = NameTarget::new();
    t.add_reference(Reference::CircularLocal { local_name: "x".to_string() });
    t.set_aggregate_status();
    assert!(matches!(t.status, NameTargetStatus::Circular));

    let mut t = NameTarget::new();
    t.add_reference(Reference::EmptyLocal { local_name: "x".to_string() });
    t.set_aggregate_status();
    assert!(matches!(t.status, NameTargetStatus::Empty));

    let mut t = NameTarget::new();
    t.set_aggregate_status();
    assert!(matches!(t.status, NameTargetStatus::Empty));
}

#[test]
fn whole_namespace_import_resolves_to_namespace_declaration() {
    let a = module(vec![], vec![export_const("/r/a.ren", "y")]);
    let b = module(vec![import_decl("/r/b.ren", "./a", &[("*", "all")])], vec![]);
    let (program, diags) = run(
        "/r/b.ren",
        vec![source("/r/a.ren", a), source("/r/b.ren", b)],
    );
    assert_eq!(errors(&diags).len(), 0);
    let target = local_target(namespace_of(&program, "/r/b.ren"), "all");
    assert!(matches!(target.status, NameTargetStatus::FullyResolved));
    let decl_id = match &target.references[0] {
        Reference::RemoteNamespace { module, resolved_declaration_id } => {
            assert_eq!(module, "/r/a.ren");
            *resolved_declaration_id
        },
        other => panic!("unexpected reference {:?}", other),
    };
    match &program.declarations[decl_id] {
        Declaration::Namespace { namespace_id, .. } => {
            assert_eq!(*namespace_id, nsid_of(&program, "/r/a.ren"));
        },
        other => panic!("unexpected declaration {:?}", other),
    }
}

#[test]
fn nested_namespace_declarations_are_enumerated() {
    // module a declares: namespace inner { const c } and exports it
    let inner = NamespaceDeclaration {
        location: loc("/r/a.ren"),
        name: tok("/r/a.ren", "inner"),
        imports: vec![],
        items: vec![export_const("/r/a.ren", "c")],
    };
    let a = module(
        vec![],
        vec![NonImport::Export(ExportDeclaration {
            location: loc("/r/a.ren"),
            exports: vec![ExportEntry {
                export_name: tok("/r/a.ren", "inner"),
                value: ExportValue::Decl(SyntaxDeclaration::Namespace(inner)),
            }],
        })],
    );
    let (program, diags) = run("/r/a.ren", vec![source("/r/a.ren", a)]);
    assert_eq!(errors(&diags).len(), 0);
    assert_eq!(program.namespaces.len(), 2);
    let root = namespace_of(&program, "/r/a.ren");
    let inner_target = local_target(root, "inner");
    assert!(matches!(inner_target.status, NameTargetStatus::FullyResolved));
    let exported = export_target(root, "inner");
    assert!(matches!(exported.status, NameTargetStatus::FullyResolved));
    // the nested namespace's own export resolved too
    let nested = &program.namespaces[1];
    let c = export_target(nested, "c");
    assert!(matches!(c.status, NameTargetStatus::FullyResolved));
}

#[test]
fn unparsed_module_is_recorded_and_entry_failure_aborts() {
    // a imports from b, which exists but fails to parse
    let a = module(vec![import_decl("/r/a.ren", "./b", &[("x", "x")])], vec![]);
    let broken = SourceFile {
        path: "/r/b.ren".to_string(),
        root: None,
        diagnostics: vec![renlang::diag::Diagnostic::new(
            "syntax error".to_string(),
            loc("/r/b.ren"),
        )],
    };
    let (program, diags) = run("/r/a.ren", vec![source("/r/a.ren", a), broken]);
    assert!(matches!(
        module_status(&program, "/r/b.ren"),
        ModuleRef::Unparsed { fully_resolved: true }
    ));
    // the parser diagnostic is carried through, and the import dangles
    assert!(diags.iter().any(|d| d.message == "syntax error".to_string()));
    let target = local_target(namespace_of(&program, "/r/a.ren"), "x");
    assert!(matches!(target.status, NameTargetStatus::Dangling));

    // an entry module that cannot be found aborts the whole run
    let sources = Sources { files: vec![] };
    let result = analyze("/r/zzz.ren".to_string(), &sources);
    assert!(result.value.is_none());
    assert!(result
        .diagnostics
        .iter()
        .any(|d| matches!(d.level, DiagnosticLevel::Fatal)));
}
