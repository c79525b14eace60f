//! What the server prints when it starts, and the media type of its icon.

use crate::startup::{link, link_text};
use vstd::prelude::*;

verus! {

/// The colours of the startup messages. All of them are printed in bold.
#[derive(Clone, Copy, Debug, PartialEq, Eq, Structural)]
pub enum Tint {
    /// The terminal's own colour.
    Plain,
    Green,
    Yellow,
    /// The colour of notices, red 255, green 192, blue 0.
    Amber,
}

/// The escape sequence that switches to bold and to the colour.
pub open spec fn tint_prefix(tint: Tint) -> Seq<char> {
    match tint {
        Tint::Plain => "\x1B[1m"@,
        Tint::Green => "\x1B[1;32m"@,
        Tint::Yellow => "\x1B[1;33m"@,
        Tint::Amber => "\x1B[1;38;2;255;192;0m"@,
    }
}

/// The escape sequence that switches all styling off.
pub open spec fn tint_reset() -> Seq<char> {
    "\x1B[0m"@
}

/// `out` is `text` as the terminal gets it: between the escape sequences of
/// the tint, or bare where colours are switched off.
pub open spec fn is_painted(tint: Tint, text: Seq<char>, out: Seq<char>) -> bool {
    out == text || out == tint_prefix(tint) + text + tint_reset()
}

/// Formats `text` through the `Display` of yansi's `Paint`, bold and with
/// the foreground that `Color::paint` sets. Whether yansi writes escape
/// sequences depends on a switch of the process, so the contract allows both
/// what it writes when colours are on and the bare text it writes when they
/// are off.
#[verifier::external_body]
fn paint_bold(tint: Tint, text: &str) -> (out: String)
    ensures
        is_painted(tint, text@, out@),
{
    let painted = match tint {
        Tint::Plain => yansi::Paint::new(text),
        Tint::Green => yansi::Color::Green.paint(text),
        Tint::Yellow => yansi::Color::Yellow.paint(text),
        Tint::Amber => yansi::Color::RGB(255, 192, 0).paint(text),
    };
    format!("{}", painted.bold())
}

/// The text that `Display` writes of the mime crate's constant
/// `IMAGE_SVG`: the media type of SVG images.
#[verifier::external_body]
fn svg_media_type() -> (text: String)
    ensures
        text@ == "image/svg+xml"@,
{
    mime::IMAGE_SVG.to_string()
}

/// The answer to a request for the icon.
pub struct Favicon {
    pub status: u16,
    pub content_type: String,
    pub body: String,
}

/// The icon: the logo as an SVG image.
pub fn favicon(logo: &str) -> (icon: Favicon)
    ensures
        icon.status == 200,
        icon.content_type@ == "image/svg+xml"@,
        icon.body@ == logo@,
{
    Favicon { status: 200, content_type: svg_media_type(), body: String::from_str(logo) }
}

/// `out` is what is printed of the random route: the painted route after a
/// slash, or nothing where there is none.
pub open spec fn is_route_piece(out: Seq<char>, random_route: Option<String>) -> bool {
    match random_route {
        Some(route) => is_painted(Tint::Green, "/"@ + route@, out),
        None => out == Seq::<char>::empty(),
    }
}

/// `out` is what is printed for one interface: the painted link and, where
/// the server hides behind a random route, the painted route.
pub open spec fn is_address_piece(
    out: Seq<char>,
    interface: Seq<char>,
    port: u16,
    random_route: Option<String>,
) -> bool {
    exists|a: Seq<char>, b: Seq<char>|
        {
            &&& #[trigger] is_painted(Tint::Green, link_text(interface, port), a)
            &&& #[trigger] is_route_piece(b, random_route)
            &&& out == a + b
        }
}

/// What is printed for one interface.
pub fn address_piece(interface: &str, port: u16, random_route: &Option<String>) -> (out: String)
    ensures
        is_address_piece(out@, interface@, port, *random_route),
{
    let target = link(interface, port);
    let mut out = paint_bold(Tint::Green, target.as_str());
    let ghost a = out@;
    match random_route {
        Some(route) => {
            let mut path = String::from_str("/");
            path.append(route.as_str());
            let painted = paint_bold(Tint::Green, path.as_str());
            out.append(painted.as_str());
            assert(is_painted(Tint::Green, link_text(interface@, port), a) && is_route_piece(
                painted@,
                *random_route,
            ) && out@ == a + painted@);
        },
        None => {
            assert(out@ =~= a + Seq::<char>::empty());
            assert(is_painted(Tint::Green, link_text(interface@, port), a) && is_route_piece(
                Seq::<char>::empty(),
                *random_route,
            ) && out@ == a + Seq::<char>::empty());
        },
    }
    out
}

/// The pieces strung together, with `separator` before each piece that
/// follows something.
pub open spec fn joined(pieces: Seq<Seq<char>>, separator: Seq<char>) -> Seq<char>
    decreases pieces.len(),
{
    if pieces.len() == 0 {
        Seq::empty()
    } else if joined(pieces.drop_last(), separator).len() == 0 {
        pieces.last()
    } else {
        joined(pieces.drop_last(), separator) + separator + pieces.last()
    }
}

/// The texts of a vector of strings.
pub open spec fn texts(strings: Seq<String>) -> Seq<Seq<char>> {
    strings.map_values(|s: String| s@)
}

/// The pieces in one line, separated by a comma and a space.
pub fn join_addresses(pieces: &Vec<String>) -> (line: String)
    ensures
        line@ == joined(texts(pieces@), ", "@),
{
    let mut line = String::new();
    let mut i: usize = 0;
    assert(texts(pieces@).take(0) =~= Seq::<Seq<char>>::empty());
    while i < pieces.len()
        invariant
            i <= pieces@.len(),
            line@ == joined(texts(pieces@).take(i as int), ", "@),
        decreases pieces@.len() - i,
    {
        assert(texts(pieces@).take(i + 1).drop_last() =~= texts(pieces@).take(i as int));
        assert(texts(pieces@).take(i + 1).last() == pieces@[i as int]@);
        if !line.as_str().is_empty() {
            line.append(", ");
        }
        line.append(pieces[i].as_str());
        assert(line@ =~= joined(texts(pieces@).take(i + 1), ", "@));
        i += 1;
    }
    assert(texts(pieces@).take(i as int) =~= texts(pieces@));
    line
}

/// The line of all addresses under which the server is reached.
pub fn addresses(interfaces: &Vec<String>, port: u16, random_route: &Option<String>) -> (line: String)
    ensures
        exists|pieces: Seq<Seq<char>>|
            {
                &&& pieces.len() == interfaces@.len()
                &&& forall|i: int|
                    0 <= i < pieces.len() ==> is_address_piece(
                        #[trigger] pieces[i],
                        interfaces@[i]@,
                        port,
                        *random_route,
                    )
                &&& line@ == #[trigger] joined(pieces, ", "@)
            },
{
    let mut pieces: Vec<String> = Vec::new();
    let mut i: usize = 0;
    while i < interfaces.len()
        invariant
            i <= interfaces@.len(),
            pieces@.len() == i,
            forall|k: int|
                0 <= k < i ==> is_address_piece(
                    #[trigger] texts(pieces@)[k],
                    interfaces@[k]@,
                    port,
                    *random_route,
                ),
        decreases interfaces@.len() - i,
    {
        let piece = address_piece(interfaces[i].as_str(), port, random_route);
        let ghost before = texts(pieces@);
        let ghost text = piece@;
        pieces.push(piece);
        assert(texts(pieces@) =~= before.push(text));
        assert forall|k: int| 0 <= k < i + 1 implies is_address_piece(
            #[trigger] texts(pieces@)[k],
            interfaces@[k]@,
            port,
            *random_route,
        ) by {
            if k < i {
                assert(texts(pieces@)[k] == before[k]);
            }
        }
        i += 1;
    }
    let line = join_addresses(&pieces);
    assert(texts(pieces@).len() == interfaces@.len());
    line
}

/// `out` is `text` after a painted `lead`.
pub open spec fn is_led(out: Seq<char>, tint: Tint, lead: Seq<char>, text: Seq<char>) -> bool {
    exists|a: Seq<char>| #[trigger] is_painted(tint, lead, a) && out == a + text
}

/// The line that names the program and its version.
pub fn version_line(version: &str) -> (line: String)
    ensures
        is_led(line@, Tint::Plain, "miniserve"@, " v"@ + version@),
{
    let mut line = paint_bold(Tint::Plain, "miniserve");
    let ghost a = line@;
    line.append(" v");
    line.append(version);
    assert(is_painted(Tint::Plain, "miniserve"@, a) && line@ =~= a + (" v"@ + version@));
    line
}

/// A notice: the painted word `Notice:`, a space, and what there is to
/// note.
pub fn notice(text: &str) -> (line: String)
    ensures
        is_led(line@, Tint::Amber, "Notice:"@, " "@ + text@),
{
    let mut line = paint_bold(Tint::Amber, "Notice:");
    let ghost a = line@;
    line.append(" ");
    line.append(text);
    assert(is_painted(Tint::Amber, "Notice:"@, a) && line@ =~= a + (" "@ + text@));
    line
}

/// The line that says what is served and where.
pub fn serving_line(path: &str, addresses: &str) -> (line: String)
    ensures
        exists|a: Seq<char>| #[trigger]
            is_painted(Tint::Yellow, path@, a) && line@ == "Serving path "@ + a + " at "@
                + addresses@,
{
    let mut line = String::from_str("Serving path ");
    let painted = paint_bold(Tint::Yellow, path);
    line.append(painted.as_str());
    line.append(" at ");
    line.append(addresses);
    assert(is_painted(Tint::Yellow, path@, painted@) && line@ == "Serving path "@ + painted@
        + " at "@ + addresses@);
    line
}

} // verus!
