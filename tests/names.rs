use reticle::cli::{
    asset_kind, pick_asset, AssetKind, debug_gui_candidates, find_debug_gui_binary, get_platform_asset_name, plan_run, socket_path,
};
use reticle::text::{extract_server_name, path_file_name, trim};

#[test]
fn test_extract_server_name_simple() {
    assert_eq!(extract_server_name("node"), "node");
    assert_eq!(extract_server_name("python3"), "python3");
    assert_eq!(extract_server_name("npx"), "npx");
}

#[test]
fn test_extract_server_name_with_path() {
    assert_eq!(extract_server_name("/usr/bin/node"), "node");
    assert_eq!(extract_server_name("/home/user/.local/bin/mcp-server"), "mcp-server");
    assert_eq!(extract_server_name("./scripts/server.py"), "server.py");
}

#[test]
fn test_extract_server_name_empty() {
    assert_eq!(extract_server_name(""), "mcp-server");
}

#[test]
fn file_name_follows_path_rules() {
    assert_eq!(path_file_name("/tmp/test.sock"), Some("test.sock"));
    assert_eq!(path_file_name("/tmp/reticle/nested/test.sock"), Some("test.sock"));
    assert_eq!(path_file_name("dir/"), Some("dir"));
    assert_eq!(path_file_name("a/b/."), Some("b"));
    assert_eq!(path_file_name("a/.."), None);
    assert_eq!(path_file_name("/"), None);
    assert_eq!(path_file_name("."), None);
    assert_eq!(extract_server_name("tools/.."), "mcp-server");
}

#[test]
fn trim_removes_unicode_space() {
    assert_eq!(trim("  github \r\n"), "github");
    assert_eq!(trim("\u{3000}x\u{a0}"), "x");
    assert_eq!(trim(" \t "), "");
}

#[test]
fn asset_names_per_platform() {
    assert_eq!(
        get_platform_asset_name("linux", "x86_64"),
        Ok("reticle-app-linux-x86_64".to_string())
    );
    assert_eq!(
        get_platform_asset_name("macos", "aarch64"),
        Ok("reticle-app-darwin-aarch64".to_string())
    );
    assert_eq!(
        get_platform_asset_name("freebsd", "x86_64"),
        Err("Unsupported operating system".to_string())
    );
    assert_eq!(
        get_platform_asset_name("windows", "riscv64"),
        Err("Unsupported architecture".to_string())
    );
}

#[test]
fn debug_build_is_first_present_candidate() {
    assert_eq!(
        debug_gui_candidates("/src/reticle"),
        vec![
            "/src/reticle/target/debug/reticle-app".to_string(),
            "/src/reticle/src-tauri/target/debug/reticle-app".to_string()
        ]
    );
    assert_eq!(find_debug_gui_binary(None, &[true, true]), None);
    assert_eq!(find_debug_gui_binary(Some("/p/"), &[false, false]), None);
    assert_eq!(
        find_debug_gui_binary(Some("/p/"), &[false, true]),
        Some("/p/src-tauri/target/debug/reticle-app".to_string())
    );
    assert_eq!(
        find_debug_gui_binary(Some("/p"), &[true]),
        Some("/p/target/debug/reticle-app".to_string())
    );
}

#[test]
fn run_plan_names_session_after_program() {
    assert!(plan_run(None, vec![]).is_none());
    let p = plan_run(None, vec!["/usr/bin/node".to_string(), "server.js".to_string()]).unwrap();
    assert_eq!(p.program, "/usr/bin/node");
    assert_eq!(p.args, vec!["server.js".to_string()]);
    assert_eq!(p.server_name, "node");
    let p = plan_run(Some("github".to_string()), vec!["npx".to_string()]).unwrap();
    assert_eq!(p.server_name, "github");
    assert!(p.args.is_empty());
}

#[test]
fn socket_flag_then_environment_then_default() {
    assert_eq!(socket_path(Some("/a".to_string()), Some("/b".to_string())), "/a");
    assert_eq!(socket_path(None, Some("/b".to_string())), "/b");
    assert_eq!(socket_path(None, None), "/tmp/reticle.sock");
}

#[test]
fn release_asset_choice_and_kind() {
    let names = vec![
        "checksums.txt".to_string(),
        "reticle-app-linux-x86_64.tar.gz".to_string(),
        "reticle-app-linux-x86_64.zip".to_string(),
    ];
    assert_eq!(pick_asset(&names, "reticle-app-linux-x86_64"), Some(1));
    assert_eq!(pick_asset(&names, "reticle-app-darwin-aarch64"), None);
    assert_eq!(pick_asset(&names, ""), Some(0));
    assert_eq!(asset_kind("a.tar.gz"), AssetKind::TarGz);
    assert_eq!(asset_kind("a.zip"), AssetKind::Zip);
    assert_eq!(asset_kind("reticle-app"), AssetKind::Binary);
    assert_eq!(asset_kind("gz"), AssetKind::Binary);
}
