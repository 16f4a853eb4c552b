//! The SVG icons of the plugin page.

use vstd::prelude::*;

verus! {

/// The markup of the device icon (the outline of a watch or band).
pub const DEVICE_SVG: &'static str = r#"<svg xmlns="http://www.w3.org/2000/svg" viewBox="0 0 1024 1024"><path d="M853.33 512c0-106.67-51.2-204.8-128-268.8L682.67 0 341.33 0l-42.66 243.2C221.87 307.2 170.67 405.33 170.67 512s51.2 204.8 128 268.8L341.33 1024l341.34 0 42.66-243.2C802.13 716.8 853.33 618.67 853.33 512zM256 512c0-140.8 115.2-256 256-256 140.8 0 256 115.2 256 256s-115.2 256-256 256C371.2 768 256 652.8 256 512z" fill="currentColor"/></svg>"#;

/// Device icon (the outline of a watch or band).
pub fn device_svg() -> (s: String)
    ensures
        s@ == DEVICE_SVG@,
{
    DEVICE_SVG.to_owned()
}

/// The markup of the icon of the connect tab (a link).
pub const CONNECT_TAB_SVG: &'static str = r#"<svg xmlns="http://www.w3.org/2000/svg" viewBox="0 0 256 256"><rect width="256" height="256" fill="none"/><path d="M122.3,71.4l19.8-19.8a44.1,44.1,0,0,1,62.3,62.3l-19.8,19.8" fill="none" stroke="currentColor" stroke-linecap="round" stroke-linejoin="round" stroke-width="16"/><path d="M133.7,184.6l-19.8,19.8a44.1,44.1,0,0,1-62.3-62.3l19.8-19.8" fill="none" stroke="currentColor" stroke-linecap="round" stroke-linejoin="round" stroke-width="16"/><line x1="96" y1="96" x2="160" y2="160" fill="none" stroke="currentColor" stroke-linecap="round" stroke-linejoin="round" stroke-width="16"/></svg>"#;

/// Icon of the connect tab (a link).
pub fn connect_tab_svg() -> (s: String)
    ensures
        s@ == CONNECT_TAB_SVG@,
{
    CONNECT_TAB_SVG.to_owned()
}

/// The markup of the icon of the about tab (an i in a circle).
pub const ABOUT_TAB_SVG: &'static str = r#"<svg xmlns="http://www.w3.org/2000/svg" viewBox="0 0 1024 1024"><path d="M509.92 795.84c157.904 0 285.92-128.016 285.92-285.92C795.84 352 667.808 224 509.92 224 352 224 224 352 224 509.92c0 157.904 128 285.92 285.92 285.92z m0 48C325.504 843.84 176 694.32 176 509.92 176 325.504 325.504 176 509.92 176c184.416 0 333.92 149.504 333.92 333.92 0 184.416-149.504 333.92-333.92 333.92z m-2.448-400.704h16a16 16 0 0 1 16 16v201.728a16 16 0 0 1-16 16h-16a16 16 0 0 1-16-16V459.136a16 16 0 0 1 16-16z m0-100.176h16a16 16 0 0 1 16 16v23.648a16 16 0 0 1-16 16h-16a16 16 0 0 1-16-16v-23.648a16 16 0 0 1 16-16z" fill="currentColor"/></svg>"#;

/// Icon of the about tab (an i in a circle).
pub fn about_tab_svg() -> (s: String)
    ensures
        s@ == ABOUT_TAB_SVG@,
{
    ABOUT_TAB_SVG.to_owned()
}

/// The markup of the help document icon (a book).
pub const HELP_SVG: &'static str = r#"<svg xmlns="http://www.w3.org/2000/svg" viewBox="0 0 256 256"><rect width="256" height="256" fill="none"/><path d="M48,216a24,24,0,0,1,24-24H208V32H72A24,24,0,0,0,48,56Z" fill="none" stroke="currentColor" stroke-linecap="round" stroke-linejoin="round" stroke-width="16"/><polyline points="48 216 48 224 192 224" fill="none" stroke="currentColor" stroke-linecap="round" stroke-linejoin="round" stroke-width="16"/></svg>"#;

/// Help document icon (a book).
pub fn help_svg() -> (s: String)
    ensures
        s@ == HELP_SVG@,
{
    HELP_SVG.to_owned()
}

/// The markup of the qQ group icon (an at sign).
pub const QQ_GROUP_SVG: &'static str = r#"<svg xmlns="http://www.w3.org/2000/svg" viewBox="0 0 256 256"><rect width="256" height="256" fill="none"/><circle cx="128" cy="128" r="40" fill="none" stroke="currentColor" stroke-linecap="round" stroke-linejoin="round" stroke-width="16"/><path d="M184,208c-15.21,10.11-36.37,16-56,16a96,96,0,1,1,96-96c0,22.09-8,40-28,40s-28-17.91-28-40V88" fill="none" stroke="currentColor" stroke-linecap="round" stroke-linejoin="round" stroke-width="16"/></svg>"#;

/// QQ group icon (an at sign).
pub fn qq_group_svg() -> (s: String)
    ensures
        s@ == QQ_GROUP_SVG@,
{
    QQ_GROUP_SVG.to_owned()
}

/// The markup of the outward link arrow icon.
pub const MORE_LINK_SVG: &'static str = r#"<svg xmlns="http://www.w3.org/2000/svg" viewBox="0 0 256 256"><rect width="256" height="256" fill="none"/><polyline points="216 104 215.99 40.01 152 40" fill="none" stroke="currentColor" stroke-linecap="round" stroke-linejoin="round" stroke-width="16"/><line x1="136" y1="120" x2="216" y2="40" fill="none" stroke="currentColor" stroke-linecap="round" stroke-linejoin="round" stroke-width="16"/><path d="M184,136v72a8,8,0,0,1-8,8H48a8,8,0,0,1-8-8V80a8,8,0,0,1,8-8h72" fill="none" stroke="currentColor" stroke-linecap="round" stroke-linejoin="round" stroke-width="16"/></svg>"#;

/// Outward link arrow icon.
pub fn more_link_svg() -> (s: String)
    ensures
        s@ == MORE_LINK_SVG@,
{
    MORE_LINK_SVG.to_owned()
}

/// The markup of the time icon (a clock).
pub const TIME_SVG: &'static str = r#"<svg xmlns="http://www.w3.org/2000/svg" viewBox="0 0 256 256"><rect width="256" height="256" fill="none"/><circle cx="128" cy="128" r="96" fill="none" stroke="currentColor" stroke-linecap="round" stroke-linejoin="round" stroke-width="16"/><polyline points="128 72 128 128 184 128" fill="none" stroke="currentColor" stroke-linecap="round" stroke-linejoin="round" stroke-width="16"/></svg>"#;

/// Time icon (a clock).
pub fn time_svg() -> (s: String)
    ensures
        s@ == TIME_SVG@,
{
    TIME_SVG.to_owned()
}

/// The markup of the user icon.
pub const USER_SVG: &'static str = r#"<svg xmlns="http://www.w3.org/2000/svg" viewBox="0 0 256 256"><rect width="256" height="256" fill="none"/><circle cx="128" cy="136" r="32" fill="none" stroke="currentColor" stroke-linecap="round" stroke-linejoin="round" stroke-width="16"/><path d="M80,192a60,60,0,0,1,96,0" fill="none" stroke="currentColor" stroke-linecap="round" stroke-linejoin="round" stroke-width="16"/><rect x="32" y="48" width="192" height="160" rx="8" transform="translate(256) rotate(90)" fill="none" stroke="currentColor" stroke-linecap="round" stroke-linejoin="round" stroke-width="16"/><line x1="96" y1="64" x2="160" y2="64" fill="none" stroke="currentColor" stroke-linecap="round" stroke-linejoin="round" stroke-width="16"/></svg>"#;

/// User icon.
pub fn user_svg() -> (s: String)
    ensures
        s@ == USER_SVG@,
{
    USER_SVG.to_owned()
}

/// The markup of the branch icon.
pub const BRANCH_SVG: &'static str = r#"<svg xmlns="http://www.w3.org/2000/svg" viewBox="0 0 256 256"><rect width="256" height="256" fill="none"/><path d="M80,168V144a16,16,0,0,1,16-16h88a16,16,0,0,0,16-16V88" fill="none" stroke="currentColor" stroke-linecap="round" stroke-linejoin="round" stroke-width="16"/><line x1="80" y1="88" x2="80" y2="168" fill="none" stroke="currentColor" stroke-linecap="round" stroke-linejoin="round" stroke-width="16"/><circle cx="80" cy="64" r="24" fill="none" stroke="currentColor" stroke-linecap="round" stroke-linejoin="round" stroke-width="16"/><circle cx="200" cy="64" r="24" fill="none" stroke="currentColor" stroke-linecap="round" stroke-linejoin="round" stroke-width="16"/><circle cx="80" cy="192" r="24" fill="none" stroke="currentColor" stroke-linecap="round" stroke-linejoin="round" stroke-width="16"/></svg>"#;

/// Branch icon.
pub fn branch_svg() -> (s: String)
    ensures
        s@ == BRANCH_SVG@,
{
    BRANCH_SVG.to_owned()
}

/// The markup of the hash sign icon.
pub const HASH_SVG: &'static str = r#"<svg xmlns="http://www.w3.org/2000/svg" viewBox="0 0 256 256"><rect width="256" height="256" fill="none"/><line x1="48" y1="96" x2="224" y2="96" fill="none" stroke="currentColor" stroke-linecap="round" stroke-linejoin="round" stroke-width="16"/><line x1="176" y1="40" x2="144" y2="216" fill="none" stroke="currentColor" stroke-linecap="round" stroke-linejoin="round" stroke-width="16"/><line x1="112" y1="40" x2="80" y2="216" fill="none" stroke="currentColor" stroke-linecap="round" stroke-linejoin="round" stroke-width="16"/><line x1="32" y1="160" x2="208" y2="160" fill="none" stroke="currentColor" stroke-linecap="round" stroke-linejoin="round" stroke-width="16"/></svg>"#;

/// Hash sign icon.
pub fn hash_svg() -> (s: String)
    ensures
        s@ == HASH_SVG@,
{
    HASH_SVG.to_owned()
}

} // verus!
