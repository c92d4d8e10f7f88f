//! Help text drawn in the terminal's white.
use crate::text::push_str;
use clap::builder::styling::{AnsiColor, Color, Style};
use vstd::prelude::*;

verus! {

/// The escape sequence that selects white text.
pub open spec fn white_start() -> Seq<char> {
    seq!['\x1b', '[', '3', '7', 'm']
}

/// The escape sequence that resets the text style.
pub open spec fn style_reset() -> Seq<char> {
    seq!['\x1b', '[', '0', 'm']
}

/// The `Display` of a clap (anstyle) `Style` whose only setting is a white
/// foreground: the contract states what the style writes, the escape
/// sequence `ESC [ 3 7 m`.
#[verifier::external_body]
fn white_style_text() -> (r: String)
    ensures
        r@ == white_start(),
{
    format!("{}", Style::new().fg_color(Some(Color::Ansi(AnsiColor::White))))
}

/// The alternate `Display` (`{:#}`) of the same `Style`, which renders its
/// reset: the contract states the escape sequence `ESC [ 0 m`.
#[verifier::external_body]
fn white_style_reset_text() -> (r: String)
    ensures
        r@ == style_reset(),
{
    format!("{:#}", Style::new().fg_color(Some(Color::Ansi(AnsiColor::White))))
}

/// `text` drawn in white, for the description in the command's help.
pub fn desc(text: &str) -> (r: String)
    ensures
        r@ == white_start() + text@ + style_reset(),
{
    let mut r = white_style_text();
    push_str(&mut r, text);
    let reset = white_style_reset_text();
    push_str(&mut r, reset.as_str());
    r
}

} // verus!
