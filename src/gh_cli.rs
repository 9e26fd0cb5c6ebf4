//! Guidance for installing the forge's command-line client.
use vstd::prelude::*;

verus! {

/// How to install the command-line client on the operating system named `os` (as Rust's
/// `std::env::consts::OS` names it).
pub open spec fn install_spec(os: Seq<char>) -> Seq<char> {
    if os == "macos"@ {
        "brew install gh"@
    } else if os == "linux"@ {
        "sudo apt install gh    # Debian/Ubuntu\n  sudo dnf install gh    # Fedora"@
    } else if os == "windows"@ {
        "winget install GitHub.cli"@
    } else {
        "See https://cli.github.com/manual/installation"@
    }
}

/// The installation command for the command-line client on `os`.
pub fn install_instructions(os: &str) -> (r: &'static str)
    ensures
        r@ == install_spec(os@),
{
    if crate::text::same_text(os, "macos") {
        "brew install gh"
    } else if crate::text::same_text(os, "linux") {
        "sudo apt install gh    # Debian/Ubuntu\n  sudo dnf install gh    # Fedora"
    } else if crate::text::same_text(os, "windows") {
        "winget install GitHub.cli"
    } else {
        "See https://cli.github.com/manual/installation"
    }
}

} // verus!
