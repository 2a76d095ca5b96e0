//! Command-line switches.
use vstd::prelude::*;
use crate::text::same_text;

verus! {

/// Which characters the terminal output may use.
#[derive(Clone, Copy, Debug, PartialEq, Eq, Structural)]
pub enum Encoding {
    Unicode,
    Ascii,
}

/// Whether some argument is exactly `flag`.
pub open spec fn has_flag(args: Seq<String>, flag: Seq<char>) -> bool {
    exists|i: int| 0 <= i < args.len() && (#[trigger] args[i])@ == flag
}

fn find_flag(args: &Vec<String>, flag: &str) -> (r: bool)
    ensures
        r == has_flag(args@, flag@),
{
    let mut i: usize = 0;
    while i < args.len()
        invariant
            i <= args.len(),
            forall|k: int| 0 <= k < i ==> (#[trigger] args@[k])@ != flag@,
        decreases args.len() - i,
    {
        if same_text(args[i].as_str(), flag) {
            assert(args@[i as int]@ == flag@);
            return true;
        }
        i = i + 1;
    }
    false
}

/// ASCII output when some argument is `--ascii`, Unicode otherwise.
pub fn get_encoding(args: &Vec<String>) -> (r: Encoding)
    ensures
        r == (if has_flag(args@, "--ascii"@) { Encoding::Ascii } else { Encoding::Unicode }),
{
    if find_flag(args, "--ascii") {
        Encoding::Ascii
    } else {
        Encoding::Unicode
    }
}

/// Whether some argument is `--help`.
pub fn help_requested(args: &Vec<String>) -> (r: bool)
    ensures
        r == has_flag(args@, "--help"@),
{
    find_flag(args, "--help")
}

/// The usage text that `--help` shows, one line per item.
pub fn help_lines() -> (r: Vec<&'static str>)
    ensures
        r@.len() == 4,
        r@[0]@ == "Usage: mangadl-rs [OPTIONS]"@,
        r@[1]@ == "\nOptions:"@,
        r@[2]@ == "  --ascii\t\tUse ascii characters instead of unicode"@,
        r@[3]@ == "  --help\t\tDisplay this help message"@,
{
    vec![
        "Usage: mangadl-rs [OPTIONS]",
        "\nOptions:",
        "  --ascii\t\tUse ascii characters instead of unicode",
        "  --help\t\tDisplay this help message",
    ]
}

} // verus!
