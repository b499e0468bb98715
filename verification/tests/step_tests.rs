//! The resolution pass's single-step interface: one dependency processed at a
//! time, checked against the per-dependency outcome its contract states.

use renlang::dependencies::Dependency;
use renlang::diag::FileRange;
use renlang::namespace::{ModuleRef, NameBinding, NameTarget, NameTargetStatus, Namespace,
    Reference};
use renlang::resolution::ResolutionProcess;
use renlang::syntax::Token;

fn loc(file: &str) -> FileRange {
    FileRange::new(file.to_string(), (0, 0), (0, 1))
}

fn tok(file: &str, image: &str) -> Token {
    Token { image: image.to_string(), location: loc(file) }
}

fn import_dep(ns: usize, file: &str, module: &str, name: &str) -> Dependency {
    Dependency::ImportedName {
        import_namespace: ns,
        import_name: tok(file, name),
        export_module: module.to_string(),
        export_module_location: loc(file),
        export_name: tok(file, name),
    }
}

fn target_with(deps: Vec<Dependency>) -> NameTarget {
    let mut t = NameTarget::new();
    for d in deps {
        t.add_dependency(d);
    }
    t
}

fn module_namespace(id: usize, path: &str) -> Namespace {
    Namespace::new_module(id, path.to_string())
}

#[test]
fn one_missing_module_dependency_yields_missing_module() {
    // namespace 0 holds local x depending on the unresolvable module "b"
    let mut ns0 = module_namespace(0, "/r/a.ren");
    ns0.locals.push(NameBinding {
        name: "x".to_string(),
        target: target_with(vec![]),
    });
    let mut process = ResolutionProcess {
        modules: vec![
            ("/r/a.ren".to_string(), ModuleRef::Success { namespace_id: 0, fully_resolved: false }),
            ("b".to_string(), ModuleRef::NotFound { fully_resolved: true }),
        ],
        declarations: vec![],
        namespaces: vec![ns0],
        diagnostics: vec![],
    };
    let dep = import_dep(0, "/r/a.ren", "b", "x");
    let mut frames = vec![(0usize, false, "x".to_string())];
    process.process_dependency(dep, 0, false, 0, &mut frames);
    let target = &process.namespaces[0].locals[0].target;
    assert!(matches!(target.status, NameTargetStatus::NotResolved));
    assert_eq!(
        target.references,
        vec![Reference::MissingModule { module: "b".to_string(), export_name: Some("x".to_string()) }]
    );
    assert_eq!(process.diagnostics.len(), 1);
    assert_eq!(process.diagnostics[0].location, loc("/r/a.ren"));
}

#[test]
fn one_resolved_dependency_yields_remote_name() {
    // namespace 1 exports y as a direct declaration; namespace 0 imports it
    let mut ns0 = module_namespace(0, "/r/b.ren");
    ns0.locals.push(NameBinding {
        name: "y".to_string(),
        target: target_with(vec![]),
    });
    let mut ns1 = module_namespace(1, "/r/a.ren");
    let mut exported = NameTarget::new();
    exported.add_reference(Reference::LocalDeclaration { resolved_declaration_id: 0 });
    ns1.exports.push(NameBinding { name: "y".to_string(), target: exported });
    let mut process = ResolutionProcess {
        modules: vec![
            ("/r/b.ren".to_string(), ModuleRef::Success { namespace_id: 0, fully_resolved: false }),
            ("/r/a.ren".to_string(), ModuleRef::Success { namespace_id: 1, fully_resolved: false }),
        ],
        declarations: vec![renlang::namespace::Declaration::Constant {
            declaration_id: 0,
            name: Some(tok("/r/a.ren", "y")),
        }],
        namespaces: vec![ns0, ns1],
        diagnostics: vec![],
    };
    let dep = import_dep(0, "/r/b.ren", "/r/a.ren", "y");
    let mut frames = vec![(0usize, false, "y".to_string())];
    process.process_dependency(dep, 0, false, 0, &mut frames);
    let target = &process.namespaces[0].locals[0].target;
    assert_eq!(
        target.references,
        vec![Reference::RemoteName {
            module: "/r/a.ren".to_string(),
            export_name: "y".to_string(),
            resolved_declaration_id: 0,
        }]
    );
    // the traversed export froze at its aggregate status
    assert!(matches!(
        process.namespaces[1].exports[0].target.status,
        NameTargetStatus::FullyResolved
    ));
    assert_eq!(process.diagnostics.len(), 0);
}

#[test]
fn dependency_on_a_stacked_target_yields_circular() {
    // the origin's dependency points back at a target already being drained
    let mut ns0 = module_namespace(0, "/r/a.ren");
    ns0.locals.push(NameBinding {
        name: "v".to_string(),
        target: target_with(vec![]),
    });
    ns0.exports.push(NameBinding {
        name: "v".to_string(),
        target: target_with(vec![]),
    });
    let mut process = ResolutionProcess {
        modules: vec![
            ("/r/a.ren".to_string(), ModuleRef::Success { namespace_id: 0, fully_resolved: false }),
        ],
        declarations: vec![],
        namespaces: vec![ns0],
        diagnostics: vec![],
    };
    let dep = import_dep(0, "/r/a.ren", "/r/a.ren", "v");
    // both the origin local and the export it refers to are on the stack
    let mut frames = vec![
        (0usize, true, "v".to_string()),
        (0usize, false, "v".to_string()),
    ];
    process.process_dependency(dep, 0, false, 0, &mut frames);
    let target = &process.namespaces[0].locals[0].target;
    assert_eq!(
        target.references,
        vec![Reference::CircularRemote {
            module: "/r/a.ren".to_string(),
            export_name: "v".to_string(),
        }]
    );
    assert_eq!(process.diagnostics.len(), 1);
}
