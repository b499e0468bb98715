//! Forwarded names, wildcard-as-name forwards, exported locals, and the
//! advisory case of a module that pure-forwards to itself.

use renlang::diag::{DiagnosticLevel, FileRange};
use renlang::enumeration::{SourceFile, Sources};
use renlang::namespace::{Declaration, NameTargetStatus, Namespace, NameTarget, Reference};
use renlang::program::Program;
use renlang::semantic::analyze;
use renlang::syntax::{AnonymousDeclaration, ConstantDeclaration, ExportDeclaration, ExportEntry,
    ExportForwardDeclaration, ExportValue, Forward, Import, ImportDeclaration, ModuleRoot,
    NonImport, Token};
use renlang::syntax::Declaration as SyntaxDeclaration;

fn loc(file: &str) -> FileRange {
    FileRange::new(file.to_string(), (0, 0), (0, 1))
}

fn tok(file: &str, image: &str) -> Token {
    Token { image: image.to_string(), location: loc(file) }
}

fn module(imports: Vec<ImportDeclaration>, items: Vec<NonImport>) -> ModuleRoot {
    ModuleRoot { location: loc("m"), imports, items }
}

fn source(path: &str, root: ModuleRoot) -> SourceFile {
    SourceFile { path: path.to_string(), root: Some(root), diagnostics: vec![] }
}

fn export_const(file: &str, name: &str) -> NonImport {
    NonImport::Export(ExportDeclaration {
        location: loc(file),
        exports: vec![ExportEntry {
            export_name: tok(file, name),
            value: ExportValue::Decl(SyntaxDeclaration::Constant(ConstantDeclaration {
                location: loc(file),
                name: tok(file, name),
            })),
        }],
    })
}

fn run(entry: &str, files: Vec<SourceFile>) -> (Program, Vec<renlang::diag::Diagnostic>) {
    let sources = Sources { files };
    let result = analyze(entry.to_string(), &sources);
    (result.value.expect("analysis should produce a program"), result.diagnostics)
}

fn namespace_of<'a>(program: &'a Program, path: &str) -> &'a Namespace {
    for (p, status) in &program.modules {
        if p == path {
            if let renlang::namespace::ModuleRef::Success { namespace_id, .. } = status {
                return &program.namespaces[*namespace_id];
            }
        }
    }
    panic!("module has no namespace");
}

fn export_target<'a>(ns: &'a Namespace, name: &str) -> &'a NameTarget {
    for binding in &ns.exports {
        if binding.name == name.to_string() {
            return &binding.target;
        }
    }
    panic!("no export of that name");
}

fn local_target<'a>(ns: &'a Namespace, name: &str) -> &'a NameTarget {
    for binding in &ns.locals {
        if binding.name == name.to_string() {
            return &binding.target;
        }
    }
    panic!("no local of that name");
}

fn error_count(diags: &[renlang::diag::Diagnostic]) -> usize {
    diags.iter().filter(|d| matches!(d.level, DiagnosticLevel::Error)).count()
}

#[test]
fn aliased_forward_re_exports_a_remote_name() {
    // b forwards a's export x under the alias y
    let a = module(vec![], vec![export_const("/r/a.ren", "x")]);
    let b = module(
        vec![],
        vec![NonImport::Forward(ExportForwardDeclaration {
            location: loc("/r/b.ren"),
            module_name: tok("/r/b.ren", "./a"),
            forwards: vec![Forward {
                export_name: tok("/r/b.ren", "y"),
                import_name: tok("/r/b.ren", "x"),
            }],
        })],
    );
    let (program, diags) = run(
        "/r/b.ren",
        vec![source("/r/a.ren", a), source("/r/b.ren", b)],
    );
    assert_eq!(error_count(&diags), 0);
    let y = export_target(namespace_of(&program, "/r/b.ren"), "y");
    assert!(matches!(y.status, NameTargetStatus::FullyResolved));
    match &y.references[0] {
        Reference::RemoteName { module, export_name, .. } => {
            assert_eq!(module, "/r/a.ren");
            assert_eq!(export_name, "x");
        },
        other => panic!("unexpected reference {:?}", other),
    }
}

#[test]
fn wildcard_as_name_forward_exports_the_namespace() {
    // b re-exports a's whole namespace under the name all
    let a = module(vec![], vec![export_const("/r/a.ren", "x")]);
    let b = module(
        vec![],
        vec![NonImport::Forward(ExportForwardDeclaration {
            location: loc("/r/b.ren"),
            module_name: tok("/r/b.ren", "./a"),
            forwards: vec![Forward {
                export_name: tok("/r/b.ren", "all"),
                import_name: tok("/r/b.ren", "*"),
            }],
        })],
    );
    let (program, diags) = run(
        "/r/b.ren",
        vec![source("/r/a.ren", a), source("/r/b.ren", b)],
    );
    assert_eq!(error_count(&diags), 0);
    let all = export_target(namespace_of(&program, "/r/b.ren"), "all");
    assert!(matches!(all.status, NameTargetStatus::FullyResolved));
    let decl_id = match &all.references[0] {
        Reference::RemoteNamespace { resolved_declaration_id, .. } => *resolved_declaration_id,
        other => panic!("unexpected reference {:?}", other),
    };
    assert!(matches!(
        program.declarations[decl_id],
        Declaration::Namespace { .. }
    ));
}

#[test]
fn exporting_a_missing_local_dangles() {
    let a = module(
        vec![],
        vec![NonImport::Export(ExportDeclaration {
            location: loc("/r/a.ren"),
            exports: vec![ExportEntry {
                export_name: tok("/r/a.ren", "gone"),
                value: ExportValue::Name(tok("/r/a.ren", "gone")),
            }],
        })],
    );
    let (program, diags) = run("/r/a.ren", vec![source("/r/a.ren", a)]);
    let gone = export_target(namespace_of(&program, "/r/a.ren"), "gone");
    assert!(matches!(gone.status, NameTargetStatus::Dangling));
    assert_eq!(
        gone.references[0],
        Reference::MissingLocal { local_name: "gone".to_string() }
    );
    assert_eq!(error_count(&diags), 1);
}

#[test]
fn pure_forward_to_itself_is_a_warning() {
    let a = module(
        vec![],
        vec![
            export_const("/r/a.ren", "x"),
            NonImport::Forward(ExportForwardDeclaration {
                location: loc("/r/a.ren"),
                module_name: tok("/r/a.ren", "./a"),
                forwards: vec![Forward {
                    export_name: tok("/r/a.ren", "*"),
                    import_name: tok("/r/a.ren", "*"),
                }],
            }),
        ],
    );
    let (program, diags) = run("/r/a.ren", vec![source("/r/a.ren", a)]);
    assert_eq!(error_count(&diags), 0);
    assert!(diags.iter().any(|d| matches!(d.level, DiagnosticLevel::Warning)));
    // the namespace keeps only its own export
    assert_eq!(namespace_of(&program, "/r/a.ren").exports.len(), 1);
}

#[test]
fn exported_anonymous_declaration_gets_no_local_name() {
    let a = module(
        vec![],
        vec![NonImport::Export(ExportDeclaration {
            location: loc("/r/a.ren"),
            exports: vec![ExportEntry {
                export_name: tok("/r/a.ren", "f"),
                value: ExportValue::Anon(AnonymousDeclaration::Function {
                    location: loc("/r/a.ren"),
                }),
            }],
        })],
    );
    let (program, diags) = run("/r/a.ren", vec![source("/r/a.ren", a)]);
    assert_eq!(error_count(&diags), 0);
    let ns = namespace_of(&program, "/r/a.ren");
    // the export resolves directly; no local was registered
    assert!(matches!(
        export_target(ns, "f").status,
        NameTargetStatus::FullyResolved
    ));
    assert_eq!(ns.locals.len(), 0);
    // the arena carries the anonymous function
    let decl_id = match &export_target(ns, "f").references[0] {
        Reference::LocalDeclaration { resolved_declaration_id } => *resolved_declaration_id,
        other => panic!("unexpected reference {:?}", other),
    };
    assert!(matches!(
        program.declarations[decl_id],
        Declaration::Function { name: None, .. }
    ));
}

#[test]
fn import_of_an_exported_local_chains_to_the_declaration() {
    // a declares x locally and exports it under e; b imports e
    let a = module(
        vec![],
        vec![
            NonImport::Decl(SyntaxDeclaration::Constant(ConstantDeclaration {
                location: loc("/r/a.ren"),
                name: tok("/r/a.ren", "x"),
            })),
            NonImport::Export(ExportDeclaration {
                location: loc("/r/a.ren"),
                exports: vec![ExportEntry {
                    export_name: tok("/r/a.ren", "e"),
                    value: ExportValue::Name(tok("/r/a.ren", "x")),
                }],
            }),
        ],
    );
    let b = module(
        vec![ImportDeclaration {
            location: loc("/r/b.ren"),
            module_name: tok("/r/b.ren", "./a"),
            imports: vec![Import {
                import_name: tok("/r/b.ren", "e"),
                alias_name: tok("/r/b.ren", "mine"),
            }],
        }],
        vec![],
    );
    let (program, diags) = run(
        "/r/b.ren",
        vec![source("/r/a.ren", a), source("/r/b.ren", b)],
    );
    assert_eq!(error_count(&diags), 0);
    let a_ns = namespace_of(&program, "/r/a.ren");
    let decl_id = match &local_target(a_ns, "x").references[0] {
        Reference::LocalDeclaration { resolved_declaration_id } => *resolved_declaration_id,
        other => panic!("unexpected reference {:?}", other),
    };
    // the export chains through the local to the declaration
    let e = export_target(a_ns, "e");
    assert!(matches!(e.status, NameTargetStatus::FullyResolved));
    match &e.references[0] {
        Reference::LocalName { name, resolved_declaration_id } => {
            assert_eq!(name, "x");
            assert_eq!(*resolved_declaration_id, decl_id);
        },
        other => panic!("unexpected reference {:?}", other),
    }
    // and the import chains through the export
    let mine = local_target(namespace_of(&program, "/r/b.ren"), "mine");
    assert!(matches!(mine.status, NameTargetStatus::FullyResolved));
    match &mine.references[0] {
        Reference::RemoteName { module, export_name, resolved_declaration_id } => {
            assert_eq!(module, "/r/a.ren");
            assert_eq!(export_name, "e");
            assert_eq!(*resolved_declaration_id, decl_id);
        },
        other => panic!("unexpected reference {:?}", other),
    }
}
