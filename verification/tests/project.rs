use java_lsp::build_tool::{detect, marker_files, BuildTool};
use java_lsp::gradle::{self, gradle_args, gradle_program, parse_project_model};
use java_lsp::javac_compile::{
    add_opens_flags, build_command_args, find_lombok_jar, javac_executable, output_dir_for_module,
};
use java_lsp::javac_fallback;
use java_lsp::jdk_home::{
    cache_key, class_source, extraction_target, java_executable, jdk_at, jimage_executable,
    locate_with, modules_file, parse_java_version, read_major_version, ClassSource, JdkHome,
};
use java_lsp::maven::{
    self, build_args, classpath_file, evaluate_args, evaluated, extract_all_tag_contents,
    maven_program, read_classpath, standard_source_dirs, version_expressions, FoundModule,
    ModuleSearch, VersionSearch,
};
use java_lsp::project_model::{distinct_classpath, ModuleModel, ProjectModel};

fn strings(list: &[&str]) -> Vec<String> {
    list.iter().map(|s| s.to_string()).collect()
}

#[test]
fn detects_maven_from_pom_xml() {
    assert_eq!(detect(&strings(&["pom.xml"])), Some(BuildTool::Maven));
}

#[test]
fn detects_gradle_from_build_gradle() {
    assert_eq!(detect(&strings(&["build.gradle"])), Some(BuildTool::Gradle));
}

#[test]
fn detects_gradle_from_build_gradle_kts() {
    assert_eq!(
        detect(&strings(&["build.gradle.kts"])),
        Some(BuildTool::Gradle)
    );
}

#[test]
fn detects_gradle_from_settings_gradle_alone() {
    assert_eq!(
        detect(&strings(&["settings.gradle"])),
        Some(BuildTool::Gradle)
    );
    assert_eq!(
        detect(&strings(&["settings.gradle.kts"])),
        Some(BuildTool::Gradle)
    );
}

#[test]
fn prefers_gradle_when_both_markers_are_present() {
    assert_eq!(
        detect(&strings(&["pom.xml", "build.gradle"])),
        Some(BuildTool::Gradle)
    );
}

#[test]
fn detects_nothing_when_no_marker_is_present() {
    assert_eq!(detect(&Vec::new()), None);
    assert_eq!(detect(&strings(&["Main.java", "pom.xml.bak"])), None);
}

#[test]
fn every_marker_file_is_detected() {
    assert_eq!(marker_files().len(), 5);
    for file in marker_files() {
        assert!(detect(&vec![file]).is_some());
    }
}

#[test]
fn parse_project_model_splits_output_into_per_module_blocks() {
    let stdout = "\
JAVA_LSP_PROJECT /root/app
JAVA_LSP_SOURCE_DIR /root/app/src/main/java
JAVA_LSP_JAVA_VERSION 17
JAVA_LSP_CLASSPATH_ENTRY /root/app/build/classes/java/main
JAVA_LSP_CLASSPATH_ENTRY /root/lib.jar
JAVA_LSP_PROJECT /root/lib
JAVA_LSP_SOURCE_DIR /root/lib/src/main/java
JAVA_LSP_JAVA_VERSION 17
JAVA_LSP_CLASSPATH_ENTRY /root/gson.jar
";

    let model = parse_project_model(stdout);

    assert_eq!(model.modules.len(), 2);
    assert_eq!(model.modules[0].root, "/root/app");
    assert_eq!(
        model.modules[0].source_dirs,
        strings(&["/root/app/src/main/java"])
    );
    assert_eq!(model.modules[0].java_version, Some("17".to_string()));
    assert_eq!(
        model.modules[0].classpath,
        strings(&["/root/app/build/classes/java/main", "/root/lib.jar"])
    );
    assert_eq!(model.modules[1].root, "/root/lib");
    assert_eq!(model.modules[1].classpath, strings(&["/root/gson.jar"]));
}

#[test]
fn parse_project_model_returns_no_modules_for_empty_output() {
    let model = parse_project_model("");

    assert!(model.modules.is_empty());
}

#[test]
fn parse_project_model_ignores_what_comes_before_a_project() {
    let model = parse_project_model(
        "JAVA_LSP_SOURCE_DIR /x\r\nnoise\r\nJAVA_LSP_PROJECT /a\r\nJAVA_LSP_SOURCE_DIR /a/src\r\n",
    );

    assert_eq!(model.modules.len(), 1);
    assert_eq!(model.modules[0].root, "/a");
    assert_eq!(model.modules[0].source_dirs, strings(&["/a/src"]));
    assert_eq!(model.modules[0].java_version, None);
}

#[test]
fn gradle_is_run_by_the_wrapper_where_there_is_one() {
    assert_eq!(gradle_program("/w", true, false), "/w/gradlew");
    assert_eq!(gradle_program("/w", true, true), "/w/gradlew.bat");
    assert_eq!(gradle_program("/w", false, false), "gradle");
    assert_eq!(
        gradle_args("/tmp/i.gradle"),
        strings(&[
            "--console=plain",
            "-q",
            "--init-script",
            "/tmp/i.gradle",
            "javaLspProjectModel"
        ])
    );
}

#[test]
fn find_lombok_jar_finds_a_jar_by_filename() {
    let classpath = strings(&[
        "/repo/.gradle/gson-2.10.1.jar",
        "/repo/.gradle/lombok-1.18.46.jar",
    ]);

    let found = find_lombok_jar(&classpath).unwrap();

    assert_eq!(found, "/repo/.gradle/lombok-1.18.46.jar");
}

#[test]
fn find_lombok_jar_is_case_insensitive() {
    let classpath = strings(&["/repo/.gradle/LOMBOK-1.18.46.jar"]);

    assert!(find_lombok_jar(&classpath).is_some());
}

#[test]
fn find_lombok_jar_returns_none_when_absent() {
    let classpath = strings(&["/repo/.gradle/gson-2.10.1.jar"]);

    assert!(find_lombok_jar(&classpath).is_none());
}

#[test]
fn find_lombok_jar_goes_by_the_name_alone() {
    let classpath = strings(&["/lombok/other.jar", "/x/Ümlaut-LOMBOK.jar", "/y/lombok.jar"]);

    assert_eq!(find_lombok_jar(&classpath).unwrap(), "/x/Ümlaut-LOMBOK.jar");
}

#[test]
fn add_opens_flags_covers_all_nine_javac_internal_packages() {
    let flags = add_opens_flags();

    assert_eq!(flags.len(), 9);
    for flag in &flags {
        assert!(flag.starts_with("-J--add-opens=jdk.compiler/com.sun.tools.javac."));
        assert!(flag.ends_with("=ALL-UNNAMED"));
    }
}

fn module(source_dirs: &[&str], classpath: &[&str]) -> ModuleModel {
    ModuleModel {
        root: "/module".to_string(),
        source_dirs: strings(source_dirs),
        classpath: strings(classpath),
        java_version: None,
    }
}

#[test]
fn build_command_args_omits_add_opens_on_a_pre_jdk9_version() {
    let args = build_command_args(
        "/src/Widget.java",
        &module(&[], &[]),
        "/lombok.jar",
        "/out",
        Some(8),
        false,
    );

    assert!(!args.iter().any(|a| a.starts_with("-J--add-opens")));
}

#[test]
fn build_command_args_includes_add_opens_on_jdk9_and_newer() {
    let args = build_command_args(
        "/src/Widget.java",
        &module(&[], &[]),
        "/lombok.jar",
        "/out",
        Some(21),
        false,
    );

    assert_eq!(
        args.iter()
            .filter(|a| a.starts_with("-J--add-opens"))
            .count(),
        9
    );
}

#[test]
fn build_command_args_includes_sourcepath_classpath_processorpath_and_output() {
    let args = build_command_args(
        "/src/Widget.java",
        &module(&["/src"], &["/dep.jar"]),
        "/lombok.jar",
        "/out",
        None,
        false,
    );

    assert!(args.windows(2).any(|w| w == ["-sourcepath", "/src"]));
    assert!(args.windows(2).any(|w| w == ["-cp", "/dep.jar"]));
    assert!(
        args.windows(2)
            .any(|w| w == ["-processorpath", "/lombok.jar"])
    );
    assert!(args.windows(2).any(|w| w == ["-d", "/out"]));
    assert_eq!(args.last().unwrap(), "/src/Widget.java");
}

#[test]
fn build_command_args_separates_paths_as_the_platform_does() {
    let args = |windows: bool| {
        build_command_args(
            "A.java",
            &module(&["a", "b"], &["c", "d", "e"]),
            "l.jar",
            "out",
            Some(8),
            windows,
        )
    };

    assert_eq!(
        args(false),
        strings(&[
            "-sourcepath",
            "a:b",
            "-cp",
            "c:d:e",
            "-processorpath",
            "l.jar",
            "-d",
            "out",
            "A.java"
        ])
    );
    assert_eq!(args(true)[1], "a;b");
}

#[test]
fn output_dir_for_module_is_deterministic_and_distinguishes_modules() {
    let cache_root = "/cache";

    let a1 = output_dir_for_module(cache_root, "/repo/app");
    let a2 = output_dir_for_module(cache_root, "/repo/app");
    let b = output_dir_for_module(cache_root, "/repo/lib");

    assert_eq!(a1, a2);
    assert_ne!(a1, b);
    assert_eq!(a1, output_dir_for_module(cache_root, "/repo//./app/"));
    let name = a1.strip_prefix("/cache/javac-output/").unwrap();
    assert_eq!(name.len(), 16);
    assert!(name.chars().all(|c| matches!(c, '0'..='9' | 'a'..='f')));
    let elsewhere = output_dir_for_module("cache/", "/repo/app");
    assert_eq!(elsewhere, format!("cache/javac-output/{name}"));
}

#[test]
fn uses_the_standard_maven_style_source_dirs_when_present() {
    let dirs = standard_source_dirs("/work", true, false);

    let model = javac_fallback::resolve_project_model("/work", dirs, None);

    assert_eq!(model.modules.len(), 1);
    assert_eq!(
        model.modules[0].source_dirs,
        strings(&["/work/src/main/java"])
    );
}

#[test]
fn falls_back_to_the_root_itself_when_no_standard_source_dirs_exist() {
    let dirs = standard_source_dirs("/work", false, false);

    let model = javac_fallback::resolve_project_model("/work", dirs, None);

    assert_eq!(model.modules[0].source_dirs, strings(&["/work"]));
}

#[test]
fn classpath_is_always_empty() {
    let model = javac_fallback::resolve_project_model("/work", Vec::new(), None);

    assert!(model.modules[0].classpath.is_empty());
}

#[test]
fn populates_java_version_from_the_located_jdk() {
    let jdk = jdk_at("/jdk".to_string(), Some("JAVA_VERSION=\"21.0.9\"\n"));

    let model = javac_fallback::resolve_project_model("/work", Vec::new(), Some(&jdk));

    assert!(model.modules[0].java_version.is_some());
    assert_eq!(model.modules[0].java_version.as_deref(), Some("21"));
}

#[test]
fn module_root_is_the_workspace_root() {
    let model = javac_fallback::resolve_project_model("/work", Vec::new(), None);

    assert_eq!(model.modules[0].root, "/work");
}

fn release(version: &str) -> String {
    format!("IMPLEMENTOR=\"Test\"\nJAVA_VERSION=\"{version}\"\n")
}

#[test]
fn locate_with_prefers_a_valid_java_home() {
    let found = vec![Some("/other/bin/java".to_string())];

    let home = locate_with(Some("/jdk".to_string()), true, &found).unwrap();
    let jdk = jdk_at(home, Some(&release("21.0.9")));

    assert_eq!(jdk.path, "/jdk");
    assert_eq!(jdk.major_version, Some(21));
}

#[test]
fn locate_with_falls_back_to_path_when_java_home_is_invalid() {
    let found = vec![None, Some("/usr/lib/jvm/j17/bin/java".to_string())];

    let home = locate_with(Some("/does/not/exist".to_string()), false, &found).unwrap();
    let jdk = jdk_at(home, Some(&release("17.0.2")));

    assert_eq!(jdk.path, "/usr/lib/jvm/j17");
    assert_eq!(jdk.major_version, Some(17));
}

#[test]
fn locate_with_falls_back_to_path_when_java_home_is_unset() {
    let found = vec![
        Some("/java".to_string()),
        Some("/opt/jdk/bin/java".to_string()),
    ];

    assert_eq!(locate_with(None, false, &found), Some("/opt/jdk".to_string()));
}

#[test]
fn locate_with_returns_none_when_nothing_looks_like_a_jdk() {
    let jdk = locate_with(Some("/does/not/exist".to_string()), false, &vec![None]);

    assert!(jdk.is_none());
}

#[test]
fn locate_with_tolerates_a_missing_release_file() {
    let home = locate_with(Some("/jdk".to_string()), true, &Vec::new()).unwrap();

    let jdk = jdk_at(home, None);

    assert_eq!(jdk.major_version, None);
}

#[test]
fn parse_java_version_reads_the_modern_scheme() {
    assert_eq!(parse_java_version("21.0.11"), Some(21));
    assert_eq!(parse_java_version("17"), Some(17));
}

#[test]
fn parse_java_version_reads_the_pre_jdk9_scheme() {
    assert_eq!(parse_java_version("1.8.0_292"), Some(8));
}

#[test]
fn parse_java_version_needs_a_number_that_fits() {
    assert_eq!(parse_java_version(""), None);
    assert_eq!(parse_java_version("x17"), None);
    assert_eq!(parse_java_version("99999999999"), None);
    assert_eq!(read_major_version("JAVA_VERSION=11\n"), Some(11));
    assert_eq!(read_major_version("OTHER=1\n"), None);
    assert_eq!(
        read_major_version("JAVA_VERSION=\"x\"\nJAVA_VERSION=\"11\"\n"),
        None
    );
}

#[test]
fn class_source_returns_rt_jar_for_a_pre_jdk9_home() {
    let jdk = JdkHome {
        path: "/fake/jdk8".to_string(),
        major_version: Some(8),
    };

    let source = class_source(&jdk, "/cache", true, "key");

    assert_eq!(
        source,
        ClassSource::Jar("/fake/jdk8/lib/rt.jar".to_string())
    );
}

#[test]
fn class_source_falls_back_to_rt_jar_when_modules_file_is_absent() {
    let jdk = JdkHome {
        path: "/jdk".to_string(),
        major_version: Some(21),
    };

    let source = class_source(&jdk, "/cache", false, "key");

    assert_eq!(source, ClassSource::Jar("/jdk/lib/rt.jar".to_string()));
}

#[test]
fn class_source_is_what_was_extracted_of_a_modern_jdk() {
    let jdk = JdkHome {
        path: "/jdk".to_string(),
        major_version: None,
    };

    assert_eq!(modules_file(&jdk), "/jdk/lib/modules");
    assert_eq!(extraction_target("/cache", "key"), "/cache/jdk/key");
    assert_eq!(
        class_source(&jdk, "/cache", true, "key"),
        ClassSource::ExtractedDir("/cache/jdk/key/java.base".to_string())
    );
    assert_eq!(java_executable("/jdk", false), "/jdk/bin/java");
    assert_eq!(java_executable("/jdk", true), "/jdk/bin/java.exe");
    assert_eq!(jimage_executable(&jdk, false), "/jdk/bin/jimage");
    assert_eq!(javac_executable(&jdk, true), "/jdk/bin/javac.exe");
}

#[test]
fn cache_key_tells_jdks_and_changes_apart() {
    let key = cache_key("/jdk", Some((5, 6)));

    assert_eq!(key.len(), 16);
    assert!(key.chars().all(|c| matches!(c, '0'..='9' | 'a'..='f')));
    assert_eq!(key, cache_key("/jdk", Some((5, 6))));
    assert_ne!(key, cache_key("/jdk", Some((5, 7))));
    assert_ne!(key, cache_key("/jdk", None));
    assert_ne!(key, cache_key("/jdk2", Some((5, 6))));
}

#[test]
fn extract_all_tag_contents_finds_every_occurrence() {
    let xml = "<modules><module>lib</module><module>app</module></modules>";

    assert_eq!(
        extract_all_tag_contents(xml, "module"),
        vec!["lib".to_string(), "app".to_string()]
    );
}

#[test]
fn extract_all_tag_contents_returns_empty_when_tag_is_absent() {
    assert!(extract_all_tag_contents("<project></project>", "module").is_empty());
}

#[test]
fn extract_all_tag_contents_stops_at_a_tag_that_is_never_closed() {
    assert_eq!(
        extract_all_tag_contents("<m>é</m><m></m> <m>x", "m"),
        strings(&["é", ""])
    );
}

fn discover(root: &str, poms: &[(&str, &str)]) -> Vec<String> {
    let mut search = ModuleSearch::new(root);
    while let Some(dir) = search.next_dir() {
        let pom = poms.iter().find(|(d, _)| *d == dir).map(|(_, text)| *text);
        search.visit(pom);
    }
    search.modules().clone()
}

#[test]
fn discover_modules_finds_nested_modules_recursively() {
    let modules = discover(
        "/root",
        &[
            (
                "/root",
                "<project><modules><module>lib</module></modules></project>",
            ),
            ("/root/lib", "<project></project>"),
        ],
    );

    assert_eq!(modules, strings(&["/root", "/root/lib"]));
}

#[test]
fn discover_modules_lists_each_module_before_those_it_names() {
    let modules = discover(
        "/r",
        &[
            ("/r", "<module> a </module><module>b</module><module>gone</module>"),
            ("/r/a", "<module>c</module>"),
            ("/r/a/c", ""),
            ("/r/b", ""),
        ],
    );

    assert_eq!(modules, strings(&["/r", "/r/a", "/r/a/c", "/r/b"]));
    assert!(discover("/nowhere", &[]).is_empty());
}

#[test]
fn read_classpath_splits_on_the_platform_separator() {
    assert_eq!(
        read_classpath(Some("/a/one.jar:/a/two.jar"), false),
        strings(&["/a/one.jar", "/a/two.jar"])
    );
    assert_eq!(
        read_classpath(Some("C:/one.jar;;D:/two.jar"), true),
        strings(&["C:/one.jar", "D:/two.jar"])
    );
}

#[test]
fn read_classpath_returns_empty_for_a_missing_file() {
    assert!(read_classpath(None, false).is_empty());
}

#[test]
fn maven_modules_become_the_project_model() {
    let found = vec![FoundModule {
        dir: "/r/app".to_string(),
        classpath: Some("/x.jar".to_string()),
        has_main: true,
        has_test: true,
        java_version: Some("17".to_string()),
    }];

    let model = maven::resolve_project_model(&found, false);

    assert_eq!(
        model.modules,
        vec![ModuleModel {
            root: "/r/app".to_string(),
            source_dirs: strings(&["/r/app/src/main/java", "/r/app/src/test/java"]),
            classpath: strings(&["/x.jar"]),
            java_version: Some("17".to_string()),
        }]
    );
    assert_eq!(evaluated(" 17\n"), Some("17".to_string()));
    assert_eq!(evaluated("\n"), None);
    assert_eq!(evaluated("null object or invalid expression\n"), None);
    assert_eq!(version_expressions()[0], "maven.compiler.release");
    assert_eq!(classpath_file(), "target/java-lsp-classpath.txt");
    assert_eq!(
        build_args()[4],
        "-Dmdep.outputFile=target/java-lsp-classpath.txt"
    );
    assert_eq!(evaluate_args("a.b")[3], "-Dexpression=a.b");
    assert_eq!(maven_program("/r", true, false), "/r/mvnw");
    assert_eq!(maven_program("/r", false, true), "mvn");
}

fn module_at(root: &str, source_dirs: &[&str]) -> ModuleModel {
    ModuleModel {
        root: root.to_string(),
        source_dirs: strings(source_dirs),
        classpath: vec![],
        java_version: None,
    }
}

#[test]
fn default_project_model_has_no_modules() {
    assert_eq!(ProjectModel::default(), ProjectModel { modules: vec![] });
}

#[test]
fn module_for_file_finds_the_module_whose_source_dir_contains_the_file() {
    let model = ProjectModel {
        modules: vec![
            module_at("/repo/app", &["/repo/app/src/main/java"]),
            module_at("/repo/lib", &["/repo/lib/src/main/java"]),
        ],
    };

    let found = model
        .module_for_file("/repo/lib/src/main/java/com/example/Lib.java")
        .unwrap();

    assert_eq!(found.root, "/repo/lib");
}

#[test]
fn module_for_file_returns_none_when_no_module_contains_the_file() {
    let model = ProjectModel {
        modules: vec![module_at("/repo/app", &["/repo/app/src/main/java"])],
    };

    assert!(model.module_for_file("/elsewhere/Main.java").is_none());
    assert!(
        model
            .module_for_file("/repo/app/src/main/javascript/Main.java")
            .is_none()
    );
}

#[test]
fn module_for_file_prefers_the_longest_matching_source_dir_when_modules_nest() {
    let model = ProjectModel {
        modules: vec![
            module_at("/repo", &["/repo/src/main/java"]),
            module_at(
                "/repo/sub",
                &["/repo/src/main/java/com/example/nested/src/main/java"],
            ),
        ],
    };

    let found = model
        .module_for_file("/repo/src/main/java/com/example/nested/src/main/java/Sub.java")
        .unwrap();

    assert_eq!(found.root, "/repo/sub");
}

#[test]
fn module_for_file_takes_the_last_of_equally_good_modules() {
    let model = ProjectModel {
        modules: vec![module_at("/a", &["/s"]), module_at("/b", &["/s", "/t"])],
    };

    assert_eq!(model.module_for_file("/s/X.java").unwrap().root, "/b");
}

#[test]
fn distinct_classpath_keeps_the_first_of_equal_entries() {
    let mut a = module_at("/a", &[]);
    a.classpath = strings(&["x", "y", "x"]);
    let mut b = module_at("/b", &[]);
    b.classpath = strings(&["z", "y"]);

    let model = ProjectModel { modules: vec![a, b] };

    assert_eq!(distinct_classpath(&model), strings(&["x", "y", "z"]));
}

#[test]
fn paths_of_windows_get_slashes() {
    let report = "JAVA_LSP_PROJECT C:\\repo\\app\nJAVA_LSP_SOURCE_DIR C:\\repo\\app\\src\nJAVA_LSP_CLASSPATH_ENTRY C:\\m2\\lombok-1.18.jar\n";

    let model = gradle::resolve_project_model(report, true);
    assert_eq!(model.modules[0].root, "C:/repo/app");
    let module = model.module_for_file("C:/repo/app/src/A.java").unwrap();
    assert_eq!(
        find_lombok_jar(&module.classpath).map(String::as_str),
        Some("C:/m2/lombok-1.18.jar")
    );
    let as_is = gradle::resolve_project_model(report, false);
    assert_eq!(as_is.modules[0].root, "C:\\repo\\app");

    let found = vec![FoundModule {
        dir: "C:\\repo\\lib".to_string(),
        classpath: Some("C:\\m2\\a.jar;C:\\m2\\b.jar".to_string()),
        has_main: true,
        has_test: false,
        java_version: None,
    }];
    let model = maven::resolve_project_model(&found, true);
    assert_eq!(model.modules[0].source_dirs, ["C:/repo/lib/src/main/java"]);
    assert_eq!(model.modules[0].classpath, ["C:/m2/a.jar", "C:/m2/b.jar"]);
}

#[test]
fn the_first_expression_with_a_value_gives_the_version() {
    let search = |answers: [Option<&str>; 3]| {
        let mut search = VersionSearch::new();
        let mut asked = Vec::new();
        while let Some(expression) = search.next_expression() {
            search.answered(answers[asked.len()]);
            asked.push(expression);
        }
        (search.version(), asked)
    };
    let all = version_expressions();

    let (version, asked) = search([Some("21\n"), Some("17"), Some("8")]);
    assert_eq!(version.as_deref(), Some("21"));
    assert_eq!(asked, all[..1]);
    let (version, asked) = search([None, Some("null object or invalid expression"), Some(" 8 ")]);
    assert_eq!(version.as_deref(), Some("8"));
    assert_eq!(asked, all);
    let (version, asked) = search([None, Some("\n"), None]);
    assert_eq!(version, None);
    assert_eq!(asked, all);
}
