use miniserve::entry::ArchiveFormat;
use miniserve::startup::{
    check_symlink_option, display_interface, display_interfaces, link, log_level, not_found_page,
    plan_routes, push_decimal, socket_address, socket_addresses, startup_message, ColorScheme,
    Interface, LogLevel, MiniserveConfig, RequiredAuth, ServeMode, StartupError,
};
use miniserve::terminal::{
    address_piece, addresses, favicon, join_addresses, notice, serving_line, version_line,
};

#[test]
fn verbose_servers_log_more() {
    assert_eq!(log_level(true), LogLevel::Info);
    assert_eq!(log_level(false), LogLevel::Error);
}

#[test]
fn numbers_are_written_in_decimal() {
    let mut text = String::from("port ");
    push_decimal(&mut text, 8080);
    push_decimal(&mut text, 0);
    push_decimal(&mut text, 7);
    push_decimal(&mut text, u64::MAX);
    assert_eq!(text, "port 80800718446744073709551615");
}

#[test]
fn interfaces_are_shown_so_that_links_work() {
    assert_eq!(display_interface(&Interface::V4(0, 0, 0, 0)), "127.0.0.1");
    assert_eq!(display_interface(&Interface::V4(192, 168, 0, 10)), "192.168.0.10");
    assert_eq!(display_interface(&Interface::V4(255, 255, 255, 255)), "255.255.255.255");
    assert_eq!(display_interface(&Interface::V4(0, 0, 0, 1)), "0.0.0.1");
    assert_eq!(display_interface(&Interface::V6("::1".to_string())), "[::1]");
    let all = display_interfaces(&vec![Interface::V4(10, 0, 0, 1), Interface::V6("fe80::1".to_string())]);
    assert_eq!(all, vec!["10.0.0.1".to_string(), "[fe80::1]".to_string()]);
    assert!(display_interfaces(&Vec::new()).is_empty());
}

#[test]
fn socket_addresses_and_links() {
    assert_eq!(socket_address("127.0.0.1", 8080), "127.0.0.1:8080");
    assert_eq!(socket_address("[::1]", 65535), "[::1]:65535");
    assert_eq!(link("127.0.0.1", 80), "http://127.0.0.1:80");
    assert_eq!(socket_address("10.1.2.3", 0), "10.1.2.3:0");
}

#[test]
fn a_symlink_path_is_refused_only_when_symlinks_are_ruled_out() {
    assert_eq!(check_symlink_option(true, true), Err(StartupError::SymlinkPath));
    assert_eq!(check_symlink_option(true, false), Ok(()));
    assert_eq!(check_symlink_option(false, true), Ok(()));
    assert_eq!(check_symlink_option(false, false), Ok(()));
    assert_eq!(
        startup_message(StartupError::SymlinkPath),
        "The no-symlinks option cannot be used with a symlink path"
    );
}

#[test]
fn routes_without_a_random_route() {
    let plan = plan_routes(&None, false, true, false);
    assert_eq!(plan.full_route, "/");
    assert_eq!(plan.upload_route, "/upload");
    assert!(matches!(plan.serve, ServeMode::Listing));
    assert!(plan.accepts_uploads);
    assert!(!plan.uses_random_route);
}

#[test]
fn routes_below_a_random_route() {
    let plan = plan_routes(&Some("x7f3".to_string()), true, false, false);
    assert_eq!(plan.full_route, "/x7f3");
    assert_eq!(plan.upload_route, "/x7f3/upload");
    assert!(matches!(plan.serve, ServeMode::DirectoryWithIndex));
    assert!(!plan.accepts_uploads);
    assert!(plan.uses_random_route);
}

#[test]
fn a_single_file_takes_no_uploads() {
    let plan = plan_routes(&None, true, true, true);
    assert!(matches!(plan.serve, ServeMode::SingleFile));
    assert!(!plan.accepts_uploads);
}

#[test]
fn the_not_found_page_uses_the_requested_colours() {
    let page = not_found_page("/nope".to_string(), Some(ColorScheme::Monokai), ColorScheme::Squirrel, false);
    assert_eq!(page.route, "/nope");
    assert_eq!(page.color_scheme, ColorScheme::Monokai);
    assert_eq!(page.default_color_scheme, ColorScheme::Squirrel);
    assert!(!page.has_referer);
    assert!(page.display_back_link);
    let page = not_found_page("/nope".to_string(), None, ColorScheme::Zenburn, true);
    assert_eq!(page.color_scheme, ColorScheme::Zenburn);
    assert!(!page.display_back_link);
}

#[test]
fn the_icon_is_an_svg_image() {
    let icon = favicon("<svg/>");
    assert_eq!(icon.status, 200);
    assert_eq!(icon.content_type, "image/svg+xml");
    assert_eq!(icon.body, "<svg/>");
}

#[test]
fn addresses_are_joined_with_commas() {
    assert_eq!(join_addresses(&Vec::new()), "");
    assert_eq!(join_addresses(&vec!["a".to_string()]), "a");
    assert_eq!(join_addresses(&vec!["a".to_string(), "b".to_string(), "c".to_string()]), "a, b, c");
    assert_eq!(join_addresses(&vec![String::new(), "b".to_string()]), "b");
}

#[test]
fn startup_lines_are_painted() {
    yansi::Paint::enable();
    assert_eq!(version_line("0.8.0"), "\x1B[1mminiserve\x1B[0m v0.8.0");
    assert_eq!(notice("The provided index file could not be found."),
        "\x1B[1;38;2;255;192;0mNotice:\x1B[0m The provided index file could not be found.");
    assert_eq!(
        serving_line("/srv/docs", "somewhere"),
        "Serving path \x1B[1;33m/srv/docs\x1B[0m at somewhere"
    );
    assert_eq!(address_piece("127.0.0.1", 8080, &None), "\x1B[1;32mhttp://127.0.0.1:8080\x1B[0m");
    assert_eq!(
        address_piece("[::1]", 80, &Some("abc".to_string())),
        "\x1B[1;32mhttp://[::1]:80\x1B[0m\x1B[1;32m/abc\x1B[0m"
    );
    assert_eq!(
        addresses(&vec!["127.0.0.1".to_string(), "[::1]".to_string()], 8080, &None),
        "\x1B[1;32mhttp://127.0.0.1:8080\x1B[0m, \x1B[1;32mhttp://[::1]:8080\x1B[0m"
    );
    assert_eq!(addresses(&Vec::new(), 8080, &None), "");
}

fn config() -> MiniserveConfig {
    MiniserveConfig {
        verbose: true,
        path: std::path::PathBuf::from("/srv/docs"),
        port: 8080,
        interfaces: vec![Interface::V4(0, 0, 0, 0)],
        auth: Vec::new(),
        path_explicitly_chosen: true,
        no_symlinks: false,
        random_route: Some("r4nd0m".to_string()),
        favicon_route: "icon".to_string(),
        default_color_scheme: ColorScheme::Squirrel,
        index: None,
        show_qrcode: false,
        file_upload: true,
        overwrite_files: false,
        tar_enabled: true,
        zip_enabled: false,
    }
}

#[test]
fn a_configuration_answers_for_itself() {
    let mut conf = config();
    assert_eq!(conf.log_level(), LogLevel::Info);
    assert!(!conf.requires_auth());
    assert!(conf.allows(ArchiveFormat::Tar));
    assert!(!conf.allows(ArchiveFormat::Zip));
    let plan = conf.routes(false);
    assert_eq!(plan.full_route, "/r4nd0m");
    assert_eq!(plan.upload_route, "/r4nd0m/upload");
    assert!(matches!(plan.serve, ServeMode::Listing));
    assert!(plan.accepts_uploads);
    conf.index = Some(std::path::PathBuf::from("index.html"));
    conf.auth.push(RequiredAuth { username: "joe".to_string(), password: "123".to_string() });
    conf.verbose = false;
    assert!(matches!(conf.routes(false).serve, ServeMode::DirectoryWithIndex));
    assert!(matches!(conf.routes(true).serve, ServeMode::SingleFile));
    assert!(conf.requires_auth());
    assert_eq!(conf.log_level(), LogLevel::Error);
    let copy = conf.clone();
    assert_eq!(copy.path, conf.path);
    assert_eq!(copy.port, 8080);
}

#[test]
fn every_interface_gets_a_socket_address() {
    let texts = socket_addresses(&vec!["127.0.0.1".to_string(), "[::1]".to_string()], 9000);
    assert_eq!(texts, vec!["127.0.0.1:9000".to_string(), "[::1]:9000".to_string()]);
    assert!(socket_addresses(&Vec::new(), 1).is_empty());
}
