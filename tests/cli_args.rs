use reticle::command::{Cli, CliError, Commands, LogFormat};

fn parse(args: &[&str]) -> Cli {
    Cli::try_parse_from(args).unwrap()
}

#[test]
fn test_cli_run_basic() {
    // Basic run usage: reticle run -- echo hello
    let cli = parse(&["reticle", "run", "--", "echo", "hello"]);
    match cli.command {
        Commands::Run {
            name,
            command,
            no_telemetry,
            log,
            ..
        } => {
            assert!(name.is_none());
            assert_eq!(command, vec!["echo", "hello"]);
            assert!(!no_telemetry);
            assert!(!log);
        }
        _ => panic!("Expected Run command"),
    }
}

#[test]
fn test_cli_run_with_name() {
    let cli = parse(&["reticle", "run", "--name", "github", "--", "npx", "mcp-server"]);
    match cli.command {
        Commands::Run { name, command, .. } => {
            assert_eq!(name, Some("github".to_string()));
            assert_eq!(command, vec!["npx", "mcp-server"]);
        }
        _ => panic!("Expected Run command"),
    }
}

#[test]
fn test_cli_run_with_socket() {
    let cli = parse(&[
        "reticle",
        "run",
        "--socket",
        "/tmp/custom.sock",
        "--",
        "node",
        "server.js",
    ]);
    match cli.command {
        Commands::Run { socket, command, .. } => {
            assert_eq!(socket, Some("/tmp/custom.sock".to_string()));
            assert_eq!(command, vec!["node", "server.js"]);
        }
        _ => panic!("Expected Run command"),
    }
}

#[test]
fn test_cli_run_no_telemetry() {
    let cli = parse(&["reticle", "run", "--no-telemetry", "--", "python", "server.py"]);
    match cli.command {
        Commands::Run {
            no_telemetry,
            command,
            ..
        } => {
            assert!(no_telemetry);
            assert_eq!(command, vec!["python", "server.py"]);
        }
        _ => panic!("Expected Run command"),
    }
}

#[test]
fn test_cli_run_log_mode() {
    let cli = parse(&["reticle", "run", "--log", "--format", "json", "--", "echo"]);
    match cli.command {
        Commands::Run { log, format, .. } => {
            assert!(log);
            assert!(matches!(format, LogFormat::Json));
        }
        _ => panic!("Expected Run command"),
    }
}

#[test]
fn test_cli_run_all_options() {
    let cli = parse(&[
        "reticle",
        "run",
        "--name",
        "test-server",
        "--socket",
        "/tmp/test.sock",
        "--log",
        "--format",
        "json",
        "--",
        "npx",
        "-y",
        "@modelcontextprotocol/server-github",
    ]);
    match cli.command {
        Commands::Run {
            name,
            socket,
            log,
            format,
            command,
            ..
        } => {
            assert_eq!(name, Some("test-server".to_string()));
            assert_eq!(socket, Some("/tmp/test.sock".to_string()));
            assert!(log);
            assert!(matches!(format, LogFormat::Json));
            assert_eq!(command, vec!["npx", "-y", "@modelcontextprotocol/server-github"]);
        }
        _ => panic!("Expected Run command"),
    }
}

#[test]
fn test_cli_run_complex_command_args() {
    let cli = parse(&[
        "reticle",
        "run",
        "--name",
        "fs",
        "--",
        "npx",
        "-y",
        "@anthropic/mcp-server-filesystem",
        "/home/user",
        "--readonly",
    ]);
    match cli.command {
        Commands::Run { name, command, .. } => {
            assert_eq!(name, Some("fs".to_string()));
            assert_eq!(
                command,
                vec![
                    "npx",
                    "-y",
                    "@anthropic/mcp-server-filesystem",
                    "/home/user",
                    "--readonly"
                ]
            );
        }
        _ => panic!("Expected Run command"),
    }
}

#[test]
fn test_cli_run_short_flags() {
    let cli = parse(&[
        "reticle",
        "run",
        "-n",
        "myserver",
        "-s",
        "/tmp/s.sock",
        "--",
        "node",
        "index.js",
    ]);
    match cli.command {
        Commands::Run { name, socket, .. } => {
            assert_eq!(name, Some("myserver".to_string()));
            assert_eq!(socket, Some("/tmp/s.sock".to_string()));
        }
        _ => panic!("Expected Run command"),
    }
}

#[test]
fn test_cli_wrap_alias() {
    // Test "reticle wrap" alias for run
    let cli = parse(&["reticle", "wrap", "--", "echo", "hello"]);
    assert!(matches!(cli.command, Commands::Run { .. }));
}

#[test]
fn test_cli_proxy() {
    let cli = parse(&[
        "reticle",
        "proxy",
        "--name",
        "api",
        "--upstream",
        "http://localhost:8080",
        "--listen",
        "3001",
    ]);
    match cli.command {
        Commands::Proxy {
            name,
            listen,
            upstream,
            ..
        } => {
            assert_eq!(name, "api");
            assert_eq!(listen, 3001);
            assert_eq!(upstream, "http://localhost:8080");
        }
        _ => panic!("Expected Proxy command"),
    }
}

#[test]
fn test_cli_proxy_no_telemetry() {
    let cli = parse(&[
        "reticle",
        "proxy",
        "--name",
        "test",
        "--upstream",
        "http://localhost:8080",
        "--no-telemetry",
    ]);
    match cli.command {
        Commands::Proxy { no_telemetry, .. } => {
            assert!(no_telemetry);
        }
        _ => panic!("Expected Proxy command"),
    }
}

#[test]
fn test_cli_daemon() {
    let cli = parse(&["reticle", "daemon", "--socket", "/tmp/test.sock"]);
    match cli.command {
        Commands::Daemon {
            socket,
            port,
            verbose,
        } => {
            assert_eq!(socket, "/tmp/test.sock");
            assert!(port.is_none());
            assert!(!verbose);
        }
        _ => panic!("Expected Daemon command"),
    }
}

#[test]
fn test_cli_daemon_default_socket() {
    let cli = parse(&["reticle", "daemon"]);
    match cli.command {
        Commands::Daemon { socket, .. } => {
            assert_eq!(socket, "/tmp/reticle.sock");
        }
        _ => panic!("Expected Daemon command"),
    }
}

#[test]
fn test_cli_daemon_with_port() {
    let cli = parse(&["reticle", "daemon", "--port", "9315"]);
    match cli.command {
        Commands::Daemon { port, .. } => {
            assert_eq!(port, Some(9315));
        }
        _ => panic!("Expected Daemon command"),
    }
}

#[test]
fn test_cli_daemon_verbose() {
    let cli = parse(&["reticle", "daemon", "--verbose"]);
    match cli.command {
        Commands::Daemon { verbose, .. } => {
            assert!(verbose);
        }
        _ => panic!("Expected Daemon command"),
    }
}

#[test]
fn test_cli_ui() {
    let cli = parse(&["reticle", "ui"]);
    match cli.command {
        Commands::Ui { detach, dev } => {
            assert!(!detach);
            assert!(!dev);
        }
        _ => panic!("Expected Ui command"),
    }
}

#[test]
fn test_cli_ui_detach() {
    let cli = parse(&["reticle", "ui", "--detach"]);
    match cli.command {
        Commands::Ui { detach, dev } => {
            assert!(detach);
            assert!(!dev);
        }
        _ => panic!("Expected Ui command"),
    }
}

#[test]
fn test_cli_ui_dev() {
    let cli = parse(&["reticle", "ui", "--dev"]);
    match cli.command {
        Commands::Ui { detach, dev } => {
            assert!(!detach);
            assert!(dev);
        }
        _ => panic!("Expected Ui command"),
    }
}

#[test]
fn test_cli_gui_alias() {
    let cli = parse(&["reticle", "gui"]);
    assert!(matches!(cli.command, Commands::Ui { .. }));
}

#[test]
fn test_log_format_default() {
    let format = LogFormat::default();
    assert!(matches!(format, LogFormat::Text));
}

#[test]
fn cli_errors_are_named() {
    let err = |args: &[&str]| Cli::try_parse_from(args).unwrap_err();
    assert_eq!(err(&["reticle"]), CliError::NoCommand);
    assert_eq!(err(&["reticle", "serve"]), CliError::UnknownCommand);
    assert_eq!(err(&["reticle", "run", "echo"]), CliError::UnknownArgument);
    assert_eq!(err(&["reticle", "run", "--log"]), CliError::MissingArgument);
    assert_eq!(err(&["reticle", "run", "--"]), CliError::MissingArgument);
    assert_eq!(err(&["reticle", "run", "--bogus", "--", "echo"]), CliError::UnknownArgument);
    assert_eq!(err(&["reticle", "run", "--name"]), CliError::MissingValue);
    assert_eq!(err(&["reticle", "run", "-n", "a", "-n", "b", "--", "x"]), CliError::Repeated);
    assert_eq!(err(&["reticle", "run", "--format", "xml", "--", "x"]), CliError::InvalidValue);
    assert_eq!(err(&["reticle", "proxy", "--name", "api"]), CliError::MissingArgument);
    assert_eq!(err(&["reticle", "daemon", "--port", "65536"]), CliError::InvalidValue);
    assert_eq!(err(&["reticle", "daemon", "--port", "9x"]), CliError::InvalidValue);
}

#[test]
fn cli_proxy_listen_defaults_and_short_forms() {
    let cli = parse(&["reticle", "proxy", "-n", "api", "-u", "http://h:1"]);
    match cli.command {
        Commands::Proxy { listen, socket, .. } => {
            assert_eq!(listen, 3001);
            assert_eq!(socket, None);
        }
        _ => panic!("Expected Proxy command"),
    }
    let cli = parse(&["reticle", "daemon", "-p", "65535", "-s", "/run/x.sock"]);
    match cli.command {
        Commands::Daemon { port, socket, .. } => {
            assert_eq!(port, Some(65535));
            assert_eq!(socket, "/run/x.sock");
        }
        _ => panic!("Expected Daemon command"),
    }
}

#[test]
fn cli_values_in_the_same_word() {
    let cli = parse(&["reticle", "run", "--name=github", "-s/tmp/x.sock", "--format=json", "--", "npx"]);
    match cli.command {
        Commands::Run { name, socket, format, command, .. } => {
            assert_eq!(name, Some("github".to_string()));
            assert_eq!(socket, Some("/tmp/x.sock".to_string()));
            assert!(matches!(format, LogFormat::Json));
            assert_eq!(command, vec!["npx"]);
        }
        _ => panic!("Expected Run command"),
    }
    let cli = parse(&["reticle", "proxy", "-napi", "-u=http://h:1", "-l=8080"]);
    match cli.command {
        Commands::Proxy { name, upstream, listen, .. } => {
            assert_eq!(name, "api");
            assert_eq!(upstream, "http://h:1");
            assert_eq!(listen, 8080);
        }
        _ => panic!("Expected Proxy command"),
    }
    let err = |args: &[&str]| Cli::try_parse_from(args).unwrap_err();
    assert_eq!(err(&["reticle", "daemon", "--verbose=yes"]), CliError::InvalidValue);
    assert_eq!(err(&["reticle", "run", "--name=a", "-nb", "--", "x"]), CliError::Repeated);
}

#[test]
fn cli_help_and_version() {
    let err = |args: &[&str]| Cli::try_parse_from(args).unwrap_err();
    assert_eq!(err(&["reticle", "--help"]), CliError::HelpRequested);
    assert_eq!(err(&["reticle", "-h"]), CliError::HelpRequested);
    assert_eq!(err(&["reticle", "help"]), CliError::HelpRequested);
    assert_eq!(err(&["reticle", "run", "--help"]), CliError::HelpRequested);
    assert_eq!(err(&["reticle", "daemon", "-h"]), CliError::HelpRequested);
    assert_eq!(err(&["reticle", "--version"]), CliError::VersionRequested);
    assert_eq!(err(&["reticle", "-V"]), CliError::VersionRequested);
    let cli = parse(&["reticle", "run", "--", "tool", "--help"]);
    match cli.command {
        Commands::Run { command, .. } => assert_eq!(command, vec!["tool", "--help"]),
        _ => panic!("Expected Run command"),
    }
}
