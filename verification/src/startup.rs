//! What the server decides before it serves: where it can be reached, which
//! routes it offers, and what it tells the terminal.

use crate::entry::ArchiveFormat;
use vstd::prelude::*;

verus! {

/// Declares `std::path::PathBuf`, which is only carried through.
#[verifier::external_type_specification]
#[verifier::external_body]
pub struct ExPathBuf(std::path::PathBuf);

/// Admits `Clone::clone` of `std::path::PathBuf`, which copying a
/// configuration calls. Nothing is claimed of the copy.
pub assume_specification[ <std::path::PathBuf as Clone>::clone ](
    path: &std::path::PathBuf,
) -> std::path::PathBuf
;

/// How much the server logs.
#[derive(Clone, Copy, Debug, PartialEq, Eq, Structural)]
pub enum LogLevel {
    Info,
    Error,
}

/// A colour scheme of the listing pages.
#[derive(Clone, Copy, Debug, PartialEq, Eq, Structural)]
pub enum ColorScheme {
    Archlinux,
    Zenburn,
    Monokai,
    Squirrel,
}

/// One account that may use the server.
#[derive(Clone, Debug)]
pub struct RequiredAuth {
    pub username: String,
    pub password: String,
}

/// An address that the server listens on. An IPv6 address is held as the
/// text it is written as.
#[derive(Clone, Debug)]
pub enum Interface {
    V4(u8, u8, u8, u8),
    V6(String),
}

/// Configuration of the Miniserve application
#[derive(Clone)]
pub struct MiniserveConfig {
    /// Enable verbose mode
    pub verbose: bool,
    /// Path to be served by miniserve
    pub path: std::path::PathBuf,
    /// Port on which miniserve will be listening
    pub port: u16,
    /// IP address(es) on which miniserve will be available
    pub interfaces: Vec<Interface>,
    /// Enable HTTP basic authentication
    pub auth: Vec<RequiredAuth>,
    /// If false, miniserve will serve the current working directory
    pub path_explicitly_chosen: bool,
    /// Enable symlink resolution
    pub no_symlinks: bool,
    /// Enable random route generation
    pub random_route: Option<String>,
    /// Randomly generated favicon route
    pub favicon_route: String,
    /// Default color scheme
    pub default_color_scheme: ColorScheme,
    /// The name of a directory index file to serve, like "index.html"
    ///
    /// Normally, when miniserve serves a directory, it creates a listing for that directory.
    /// However, if a directory contains this file, miniserve will serve that file instead.
    pub index: Option<std::path::PathBuf>,
    /// Enable QR code display
    pub show_qrcode: bool,
    /// Enable file upload
    pub file_upload: bool,
    /// Enable upload to override existing files
    pub overwrite_files: bool,
    /// If false, creation of tar archives is disabled
    pub tar_enabled: bool,
    /// If false, creation of zip archives is disabled
    pub zip_enabled: bool,
}

/// Verbose servers log what they do, others only what goes wrong.
pub fn log_level(verbose: bool) -> (level: LogLevel)
    ensures
        level == if verbose {
            LogLevel::Info
        } else {
            LogLevel::Error
        },
{
    if verbose {
        LogLevel::Info
    } else {
        LogLevel::Error
    }
}

/// The character of a decimal digit.
pub open spec fn digit_char(d: nat) -> char {
    if d == 0 {
        '0'
    } else if d == 1 {
        '1'
    } else if d == 2 {
        '2'
    } else if d == 3 {
        '3'
    } else if d == 4 {
        '4'
    } else if d == 5 {
        '5'
    } else if d == 6 {
        '6'
    } else if d == 7 {
        '7'
    } else if d == 8 {
        '8'
    } else {
        '9'
    }
}

/// `n` in decimal, without leading zeros.
pub open spec fn decimal_text(n: nat) -> Seq<char>
    decreases n,
{
    if n < 10 {
        seq![digit_char(n)]
    } else {
        decimal_text(n / 10).push(digit_char(n % 10))
    }
}

fn digit_str(d: u64) -> (s: &'static str)
    requires
        d < 10,
    ensures
        s@ == seq![digit_char(d as nat)],
{
    proof {
        reveal_strlit("0");
        reveal_strlit("1");
        reveal_strlit("2");
        reveal_strlit("3");
        reveal_strlit("4");
        reveal_strlit("5");
        reveal_strlit("6");
        reveal_strlit("7");
        reveal_strlit("8");
        reveal_strlit("9");
    }
    let s = if d == 0 {
        "0"
    } else if d == 1 {
        "1"
    } else if d == 2 {
        "2"
    } else if d == 3 {
        "3"
    } else if d == 4 {
        "4"
    } else if d == 5 {
        "5"
    } else if d == 6 {
        "6"
    } else if d == 7 {
        "7"
    } else if d == 8 {
        "8"
    } else {
        "9"
    };
    assert(s@ =~= seq![digit_char(d as nat)]);
    s
}

/// Appends `n` in decimal.
pub fn push_decimal(out: &mut String, n: u64)
    ensures
        final(out)@ == old(out)@ + decimal_text(n as nat),
    decreases n,
{
    if n >= 10 {
        push_decimal(out, n / 10);
    }
    out.append(digit_str(n % 10));
    assert(out@ =~= old(out)@ + decimal_text(n as nat));
}

/// The text under which an interface is shown and bound. The address
/// `0.0.0.0` is shown as `127.0.0.1`, which every system can open, and an
/// IPv6 address stands in brackets.
pub open spec fn interface_text(interface: Interface) -> Seq<char> {
    match interface {
        Interface::V4(a, b, c, d) => if a == 0 && b == 0 && c == 0 && d == 0 {
            "127.0.0.1"@
        } else {
            decimal_text(a as nat) + "."@ + decimal_text(b as nat) + "."@ + decimal_text(c as nat)
                + "."@ + decimal_text(d as nat)
        },
        Interface::V6(text) => "["@ + text@ + "]"@,
    }
}

/// The text under which `interface` is shown and bound.
pub fn display_interface(interface: &Interface) -> (text: String)
    ensures
        text@ == interface_text(*interface),
{
    match interface {
        Interface::V4(a, b, c, d) => {
            if *a == 0 && *b == 0 && *c == 0 && *d == 0 {
                String::from_str("127.0.0.1")
            } else {
                let mut text = String::new();
                push_decimal(&mut text, *a as u64);
                text.append(".");
                push_decimal(&mut text, *b as u64);
                text.append(".");
                push_decimal(&mut text, *c as u64);
                text.append(".");
                push_decimal(&mut text, *d as u64);
                assert(text@ =~= interface_text(*interface));
                text
            }
        },
        Interface::V6(address) => {
            let mut text = String::from_str("[");
            text.append(address.as_str());
            text.append("]");
            text
        },
    }
}

/// The texts of all interfaces, in their order.
pub fn display_interfaces(interfaces: &Vec<Interface>) -> (texts: Vec<String>)
    ensures
        texts@.len() == interfaces@.len(),
        forall|i: int| 0 <= i < texts@.len() ==> (#[trigger] texts@[i])@ == interface_text(interfaces@[i]),
{
    let mut texts: Vec<String> = Vec::new();
    let mut i: usize = 0;
    while i < interfaces.len()
        invariant
            i <= interfaces@.len(),
            texts@.len() == i,
            forall|k: int| 0 <= k < i ==> (#[trigger] texts@[k])@ == interface_text(interfaces@[k]),
        decreases interfaces@.len() - i,
    {
        texts.push(display_interface(&interfaces[i]));
        i += 1;
    }
    texts
}

/// The text of the socket address to bind: interface, colon, port.
pub open spec fn socket_text(interface: Seq<char>, port: u16) -> Seq<char> {
    interface + ":"@ + decimal_text(port as nat)
}

/// The text of the socket address to bind.
pub fn socket_address(interface: &str, port: u16) -> (text: String)
    ensures
        text@ == socket_text(interface@, port),
{
    let mut text = String::from_str(interface);
    text.append(":");
    push_decimal(&mut text, port as u64);
    text
}

/// The link under which the server is reached on `interface`.
pub open spec fn link_text(interface: Seq<char>, port: u16) -> Seq<char> {
    "http://"@ + interface + ":"@ + decimal_text(port as nat)
}

/// The link under which the server is reached on `interface`.
pub fn link(interface: &str, port: u16) -> (text: String)
    ensures
        text@ == link_text(interface@, port),
{
    let mut text = String::from_str("http://");
    text.append(interface);
    text.append(":");
    push_decimal(&mut text, port as u64);
    assert(text@ =~= link_text(interface@, port));
    text
}

/// Why the server does not start.
#[derive(Clone, Copy, Debug, PartialEq, Eq, Structural)]
pub enum StartupError {
    /// Symlinks are not to be followed, and the path to serve is one.
    SymlinkPath,
}

/// With symlinks ruled out the served path may not itself be a symlink.
pub fn check_symlink_option(no_symlinks: bool, path_is_symlink: bool) -> (out: Result<
    (),
    StartupError,
>)
    ensures
        out.is_err() <==> no_symlinks && path_is_symlink,
        out.is_err() ==> out == Err::<(), StartupError>(StartupError::SymlinkPath),
{
    if no_symlinks && path_is_symlink {
        Err(StartupError::SymlinkPath)
    } else {
        Ok(())
    }
}

/// What a message says of a startup error.
pub fn startup_message(error: StartupError) -> (text: &'static str)
    ensures
        text@ == "The no-symlinks option cannot be used with a symlink path"@,
{
    match error {
        StartupError::SymlinkPath => "The no-symlinks option cannot be used with a symlink path",
    }
}

/// What is served under the main route.
pub enum ServeMode {
    /// The path is a single file: serve it.
    SingleFile,
    /// The path is a directory with an index file to serve in its place.
    DirectoryWithIndex,
    /// The path is a directory: serve its listing.
    Listing,
}

/// The routes of the server.
pub struct RoutePlan {
    pub full_route: String,
    pub upload_route: String,
    pub serve: ServeMode,
    pub accepts_uploads: bool,
    pub uses_random_route: bool,
}

/// The main route: a slash and the random route, if there is one.
pub open spec fn full_route_text(random_route: Option<String>) -> Seq<char> {
    match random_route {
        Some(route) => "/"@ + route@,
        None => "/"@,
    }
}

/// The route that takes uploads: below the random route, if there is one.
pub open spec fn upload_route_text(random_route: Option<String>) -> Seq<char> {
    match random_route {
        Some(route) => "/"@ + route@ + "/upload"@,
        None => "/upload"@,
    }
}

/// The routes for a configuration. A single file is served as it is. A
/// directory is served through its index file where one is configured, and
/// as a listing otherwise; only a directory takes uploads.
pub fn plan_routes(
    random_route: &Option<String>,
    has_index: bool,
    file_upload: bool,
    path_is_file: bool,
) -> (plan: RoutePlan)
    ensures
        plan.full_route@ == full_route_text(*random_route),
        plan.upload_route@ == upload_route_text(*random_route),
        plan.uses_random_route == random_route.is_some(),
        plan.accepts_uploads == (file_upload && !path_is_file),
        path_is_file ==> plan.serve is SingleFile,
        !path_is_file && has_index ==> plan.serve is DirectoryWithIndex,
        !path_is_file && !has_index ==> plan.serve is Listing,
{
    let mut full_route = String::from_str("/");
    let mut upload_route = String::from_str("/");
    match random_route {
        Some(route) => {
            full_route.append(route.as_str());
            upload_route.append(route.as_str());
            upload_route.append("/upload");
        },
        None => {
            upload_route.append("upload");
            proof {
                reveal_strlit("/");
                reveal_strlit("upload");
                reveal_strlit("/upload");
            }
            assert(upload_route@ =~= "/upload"@);
        },
    }
    let serve = if path_is_file {
        ServeMode::SingleFile
    } else if has_index {
        ServeMode::DirectoryWithIndex
    } else {
        ServeMode::Listing
    };
    RoutePlan {
        full_route,
        upload_route,
        serve,
        accepts_uploads: file_upload && !path_is_file,
        uses_random_route: random_route.is_some(),
    }
}

/// The texts of the socket addresses to bind, one for each interface.
pub fn socket_addresses(interfaces: &Vec<String>, port: u16) -> (texts: Vec<String>)
    ensures
        texts@.len() == interfaces@.len(),
        forall|i: int|
            0 <= i < texts@.len() ==> (#[trigger] texts@[i])@ == socket_text(interfaces@[i]@, port),
{
    let mut texts: Vec<String> = Vec::new();
    let mut i: usize = 0;
    while i < interfaces.len()
        invariant
            i <= interfaces@.len(),
            texts@.len() == i,
            forall|k: int|
                0 <= k < i ==> (#[trigger] texts@[k])@ == socket_text(interfaces@[k]@, port),
        decreases interfaces@.len() - i,
    {
        texts.push(socket_address(interfaces[i].as_str(), port));
        i += 1;
    }
    texts
}

impl MiniserveConfig {
    /// How much this server logs.
    pub fn log_level(&self) -> (level: LogLevel)
        ensures
            level == if self.verbose {
                LogLevel::Info
            } else {
                LogLevel::Error
            },
    {
        log_level(self.verbose)
    }

    /// Whether requests must carry credentials.
    pub fn requires_auth(&self) -> (needed: bool)
        ensures
            needed == (self.auth@.len() > 0),
    {
        self.auth.len() > 0
    }

    /// Whether archives of the given format may be made.
    pub fn allows(&self, format: ArchiveFormat) -> (allowed: bool)
        ensures
            allowed == match format {
                ArchiveFormat::Tar => self.tar_enabled,
                ArchiveFormat::Zip => self.zip_enabled,
            },
    {
        match format {
            ArchiveFormat::Tar => self.tar_enabled,
            ArchiveFormat::Zip => self.zip_enabled,
        }
    }

    /// The routes of this server, given whether its path is a single file.
    pub fn routes(&self, path_is_file: bool) -> (plan: RoutePlan)
        ensures
            plan.full_route@ == full_route_text(self.random_route),
            plan.upload_route@ == upload_route_text(self.random_route),
            plan.uses_random_route == self.random_route.is_some(),
            plan.accepts_uploads == (self.file_upload && !path_is_file),
            path_is_file ==> plan.serve is SingleFile,
            !path_is_file && self.index.is_some() ==> plan.serve is DirectoryWithIndex,
            !path_is_file && self.index.is_none() ==> plan.serve is Listing,
    {
        plan_routes(&self.random_route, self.index.is_some(), self.file_upload, path_is_file)
    }
}

/// What the page for a route that does not exist shows.
pub struct NotFoundPage {
    pub route: String,
    pub color_scheme: ColorScheme,
    pub default_color_scheme: ColorScheme,
    pub has_referer: bool,
    pub display_back_link: bool,
}

/// The page for a route that does not exist: in the colours that the
/// request asks for, or else the default, and with a link back unless the
/// server hides behind a random route.
pub fn not_found_page(
    route: String,
    requested_scheme: Option<ColorScheme>,
    default_color_scheme: ColorScheme,
    uses_random_route: bool,
) -> (page: NotFoundPage)
    ensures
        page.route == route,
        page.color_scheme == match requested_scheme {
            Some(scheme) => scheme,
            None => default_color_scheme,
        },
        page.default_color_scheme == default_color_scheme,
        !page.has_referer,
        page.display_back_link == !uses_random_route,
{
    let color_scheme = match requested_scheme {
        Some(scheme) => scheme,
        None => default_color_scheme,
    };
    NotFoundPage {
        route,
        color_scheme,
        default_color_scheme,
        has_referer: false,
        display_back_link: !uses_random_route,
    }
}

} // verus!
