use scene_engine::engine::confine_target;
use scene_engine::paths::{
    adapt_src, import_choice, import_name, normalize_lexical, normalized_components, path_text,
    place_in_scene, publish_removed, publish_renamed, publish_renamed_again, publish_start,
    root_path, unique_sibling, validate_output, Confine, Escapes, Footage, ImportChoice, Part,
    PublishStep, IMPORT_NAMES,
};

fn parts(path: &str) -> Vec<Part> {
    let mut out = Vec::new();
    if path.starts_with('/') {
        out.push(Part::Anchor("/".to_string()));
    }
    for word in path.split('/') {
        match word {
            "" => {}
            "." => out.push(Part::Here),
            ".." => out.push(Part::Up),
            name => out.push(Part::Name(name.to_string())),
        }
    }
    out
}

/// Confines a path where nothing but the root exists, and no link leads
/// anywhere.
fn confine(root: &str, rel: &str) -> Result<String, Escapes> {
    let real_root = root_path(&parts("/home/me/proj"), &parts(root));
    let mut search = Confine::start(parts(&path_text(&real_root)), parts(rel))?;
    loop {
        let probe = path_text(&search.probe());
        let canonical = if probe == path_text(&real_root) { Some(parts(&probe)) } else { None };
        if let Some(done) = search.step(canonical) {
            return done.map(|p| path_text(&p));
        }
    }
}

#[test]
fn relative_stays_absolute_outside_fails() {
    assert_eq!(confine(".", "assets/a.png").unwrap(), "/home/me/proj/assets/a.png");
    assert!(confine(".", "../x.png").is_err());
    assert!(confine(".", "/tmp/x.png").is_err());
    assert!(confine(".", "a/../../x").is_err());
    // An absolute path inside the root is fine.
    assert_eq!(confine(".", "/home/me/proj/sub/x.png").unwrap(), "/home/me/proj/sub/x.png");
}

#[test]
fn symlink_inside_root_pointing_out_fails() {
    let mut search = Confine::start(parts("/proj"), parts("link/x.png")).unwrap();
    // The file is not there yet; its directory is a link to `/tmp`.
    assert!(search.step(None).is_none());
    assert_eq!(path_text(&search.probe()), "/proj/link");
    let refused = search.step(Some(parts("/tmp"))).unwrap().unwrap_err();
    assert_eq!(path_text(&refused.resolved), "/tmp/x.png");
    assert_eq!(
        refused.message(),
        "path `link/x.png` escapes the project root (must land under /proj)"
    );
}

#[test]
fn links_inside_the_root_are_followed() {
    let mut search = Confine::start(parts("/proj"), parts("link/x.png")).unwrap();
    assert!(search.step(None).is_none());
    let found = search.step(Some(parts("/proj/media"))).unwrap().unwrap();
    assert_eq!(path_text(&found), "/proj/media/x.png");
}

#[test]
fn paths_normalize_without_a_file_system() {
    let normal = |p: &str| path_text(&normalize_lexical(&parts(p)));
    assert_eq!(normal("/a/./b/../c"), "/a/c");
    assert_eq!(normal("/../a"), "/a");
    assert_eq!(normal("a/b/../../c"), "c");
    assert_eq!(path_text(&normalized_components(&parts("/a/../b/./c"))), "/b/c");
    assert_eq!(path_text(&root_path(&parts("/home/me"), &parts("../you"))), "/home/you");
    assert_eq!(path_text(&root_path(&parts("/home/me"), &parts("/abs"))), "/abs");
}

#[test]
fn adapt_src_resolves_against_the_cwd_for_stdout() {
    let cwd = "/home/me/proj";
    let src = |path: &str, dir: &str| {
        let absolute = |p: &str| {
            if p.starts_with('/') {
                parts(p)
            } else {
                parts(&format!("{cwd}/{p}"))
            }
        };
        path_text(&adapt_src(&absolute(path), &absolute(dir), Some(parts(cwd))))
    };
    // Same-dir case: source beside the scene stays a bare name.
    assert_eq!(src("assets/v.mp4", "assets"), "v.mp4");
    // A nested scene climbs back.
    assert_eq!(src("source.mp4", "nested"), "../source.mp4");
    // Sibling trees climb then descend.
    assert_eq!(src("assets/v.mp4", "nested/deep"), "../../assets/v.mp4");
    // Outside the project tree: absolute, which resolves anywhere.
    assert_eq!(src("/definitely/not/here.mp4", "."), "/definitely/not/here.mp4");
    // Absolute source inside the project still relativizes.
    assert_eq!(src("/home/me/proj/assets/v.mp4", "."), "assets/v.mp4");
}

#[test]
fn place_in_scene_reuses_inside_footage() {
    match place_in_scene(&parts("/d/proj/media/clip.mp4"), &parts("/d/proj")) {
        Footage::Inside(rel) => assert_eq!(path_text(&rel), "media/clip.mp4"),
        other => panic!("{other:?}"),
    }
}

#[test]
fn place_in_scene_imports_outside_footage() {
    let outside = place_in_scene(&parts("/d/clip.mp4"), &parts("/d/nested"));
    assert!(matches!(outside, Footage::Import));
}

#[test]
fn import_media_never_clobbers_an_unrelated_file() {
    let name = |n: u32| import_name("clip.mp4", "clip", Some("mp4"), n);
    assert_eq!(name(0), "clip.mp4");
    assert_eq!(name(1), "clip-1.mp4");
    assert_eq!(import_name("clip", "clip", None, 2), "clip-2");
    // The name is taken by another file: the next one is tried.
    assert_eq!(import_choice(true, false), ImportChoice::Next);
    assert_eq!(import_choice(true, true), ImportChoice::Reuse);
    assert_eq!(import_choice(false, false), ImportChoice::Take);
    let mut names: Vec<String> = (0..IMPORT_NAMES).map(name).collect();
    names.sort();
    names.dedup();
    assert_eq!(names.len(), IMPORT_NAMES as usize);
}

#[test]
fn unique_sibling_is_unique_and_keeps_extension() {
    let a = unique_sibling(Some("final"), Some("mp4"), "tmp", 7, 0);
    let b = unique_sibling(Some("final"), Some("mp4"), "tmp", 7, 1);
    assert_ne!(a, b);
    assert!(a.ends_with(".mp4"));
    assert!(!a.contains('/'));
    assert!(a.starts_with("final.tmp-"));
    assert_eq!(a, "final.tmp-7-0.mp4");
    assert_eq!(unique_sibling(None, None, "mix", 7, 2), "out.mix-7-2.mp4");
}

#[test]
fn publish_replaces_only_on_success() {
    assert!(matches!(publish_start(true, "t"), PublishStep::Rename));
    // A missing file leaves the old output alone.
    assert!(matches!(
        publish_start(false, "t"),
        PublishStep::Done(Err(m)) if m == "render output t is missing"
    ));
    assert!(matches!(publish_renamed(Ok(()), true, "t", "f"), PublishStep::Done(Ok(()))));
    assert!(matches!(
        publish_renamed(Err("busy".into()), true, "t", "f"),
        PublishStep::RemoveTarget
    ));
    assert!(matches!(
        publish_renamed(Err("busy".into()), false, "t", "f"),
        PublishStep::Done(Err(m)) if m == "cannot move t to f: busy"
    ));
    assert!(matches!(publish_removed(Ok(()), "f"), PublishStep::RenameAgain));
    assert!(matches!(
        publish_removed(Err("busy".into()), "f"),
        PublishStep::Done(Err(m)) if m == "cannot replace f: busy"
    ));
    assert!(matches!(publish_renamed_again(Ok(()), "t", "f"), PublishStep::Done(Ok(()))));
    assert!(matches!(
        publish_renamed_again(Err("busy".into()), "t", "f"),
        PublishStep::Done(Err(_))
    ));
}

#[test]
fn missing_or_empty_output_preserves_previous_asset() {
    assert!(validate_output(true, 8).is_ok());
    for (is_file, len) in [(false, 8), (true, 0), (false, 0)] {
        assert_eq!(
            validate_output(is_file, len).unwrap_err(),
            "staged output must be a nonempty regular file"
        );
    }
}

#[test]
fn confine_target_keeps_writes_inside_the_project() {
    let target = |rel: &str| {
        let root = root_path(&parts("/home/me/proj"), &parts("."));
        let confined = Confine::start(root, parts(rel)).and_then(|mut search| loop {
            let probe = path_text(&search.probe());
            let canonical = if probe == "/home/me/proj" { Some(parts(&probe)) } else { None };
            if let Some(done) = search.step(canonical) {
                return done;
            }
        });
        confine_target(confined).map(|p| path_text(&p))
    };
    // Relative target resolves under the project root.
    assert_eq!(target("out/final.mp4").unwrap(), "/home/me/proj/out/final.mp4");
    // `..` and absolute-outside targets are refused, not clamped.
    assert!(target("../escape.mp4").is_err());
    assert!(target("/tmp/escape.mp4").is_err());
    assert!(target("out/../../escape.mp4").is_err());
    // An absolute path *inside* the root is still allowed.
    assert_eq!(target("/home/me/proj/sub/x.mp4").unwrap(), "/home/me/proj/sub/x.mp4");
}
