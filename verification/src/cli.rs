//! The choices that the command line offers.

use vstd::prelude::*;

verus! {

/// How images reach the exported Markdown.
#[derive(Clone, Copy, Debug, PartialEq, Eq, Structural)]
pub enum ImageMode {
    /// Keep the image links as they are.
    Remote,
    /// Save the images next to the Markdown files.
    Local,
    /// Embed the images as data links.
    Base64,
}

/// The browser whose cookies are read.
#[derive(Clone, Copy, Debug, PartialEq, Eq, Structural)]
pub enum BrowserChoice {
    Auto,
    Chrome,
    Chromium,
    Edge,
    Brave,
    Firefox,
    LibreWolf,
    Vivaldi,
    Opera,
    OperaGx,
    Arc,
    Zen,
    Safari,
}

impl BrowserChoice {
    /// The name under which the browser is reported.
    pub open spec fn label(self) -> Seq<char> {
        match self {
            BrowserChoice::Auto => "Auto"@,
            BrowserChoice::Chrome => "Chrome"@,
            BrowserChoice::Chromium => "Chromium"@,
            BrowserChoice::Edge => "Edge"@,
            BrowserChoice::Brave => "Brave"@,
            BrowserChoice::Firefox => "Firefox"@,
            BrowserChoice::LibreWolf => "LibreWolf"@,
            BrowserChoice::Vivaldi => "Vivaldi"@,
            BrowserChoice::Opera => "Opera"@,
            BrowserChoice::OperaGx => "OperaGx"@,
            BrowserChoice::Arc => "Arc"@,
            BrowserChoice::Zen => "Zen"@,
            BrowserChoice::Safari => "Safari"@,
        }
    }

    /// The name under which the browser is reported.
    pub fn name(self) -> (name: &'static str)
        ensures
            name@ == self.label(),
    {
        match self {
            BrowserChoice::Auto => "Auto",
            BrowserChoice::Chrome => "Chrome",
            BrowserChoice::Chromium => "Chromium",
            BrowserChoice::Edge => "Edge",
            BrowserChoice::Brave => "Brave",
            BrowserChoice::Firefox => "Firefox",
            BrowserChoice::LibreWolf => "LibreWolf",
            BrowserChoice::Vivaldi => "Vivaldi",
            BrowserChoice::Opera => "Opera",
            BrowserChoice::OperaGx => "OperaGx",
            BrowserChoice::Arc => "Arc",
            BrowserChoice::Zen => "Zen",
            BrowserChoice::Safari => "Safari",
        }
    }
}

} // verus!
