//! Where a run looks for its files.

use vstd::prelude::*;

verus! {

/// The file that messages are logged to.
pub open spec fn log_file_of<P>(
    enable_file_log: bool,
    log_file: Option<P>,
    beside_exe: Option<P>,
    bare: P,
) -> Option<P> {
    if log_file is Some {
        log_file
    } else if !enable_file_log {
        None
    } else if beside_exe is Some {
        beside_exe
    } else {
        Some(bare)
    }
}

/// The directory of custom chip definitions.
pub open spec fn chip_dir_of<P>(is_relative: bool, configured: P, beside_exe: Option<P>) -> P {
    if is_relative && beside_exe is Some {
        beside_exe->0
    } else {
        configured
    }
}

/// The file that messages are logged to, if any. A file that was asked for by name is used
/// whether or not logging to a file is enabled; without a name, logging to a file goes beside
/// the executable, or to the bare default name if the executable's place is not known.
pub fn choose_log_file<P>(
    enable_file_log: bool,
    log_file: Option<P>,
    beside_exe: Option<P>,
    bare: P,
) -> (chosen: Option<P>)
    ensures
        chosen == match (log_file, enable_file_log) {
            (Some(named), _) => Some(named),
            (None, false) => None,
            (None, true) => match beside_exe {
                Some(path) => Some(path),
                None => Some(bare),
            },
        },
        chosen == log_file_of(enable_file_log, log_file, beside_exe, bare),
{
    match log_file {
        Some(named) => Some(named),
        None => {
            if enable_file_log {
                match beside_exe {
                    Some(path) => Some(path),
                    None => Some(bare),
                }
            } else {
                None
            }
        },
    }
}

/// The directory of custom chip definitions. A relative one is looked for beside the executable
/// if the executable's place is known; an absolute one is used as it is.
pub fn choose_chip_dir<P>(is_relative: bool, configured: P, beside_exe: Option<P>) -> (chosen: P)
    ensures
        chosen == match beside_exe {
            Some(path) if is_relative => path,
            _ => configured,
        },
        chosen == chip_dir_of(is_relative, configured, beside_exe),
{
    match beside_exe {
        Some(path) => {
            if is_relative {
                path
            } else {
                configured
            }
        },
        None => configured,
    }
}

/// A file that was asked for by name is used whatever else is set. Without a name nothing is logged
/// to a file unless that is enabled; then the log goes beside the executable, or to the bare name
/// if the executable's place is not known.
pub proof fn lemma_log_file<P>(
    enable_file_log: bool,
    named: P,
    beside_exe: Option<P>,
    beside: P,
    bare: P,
)
    ensures
        log_file_of(enable_file_log, Some(named), beside_exe, bare) == Some(named),
        log_file_of(false, None, beside_exe, bare) is None,
        log_file_of(true, None, Some(beside), bare) == Some(beside),
        log_file_of(true, None, None, bare) == Some(bare),
{
}

/// An absolute directory is used as it is, whatever the executable's place; a relative one is looked
/// for beside the executable, if its place is known.
pub proof fn lemma_chip_dir<P>(configured: P, beside_exe: Option<P>, beside: P)
    ensures
        chip_dir_of(false, configured, beside_exe) == configured,
        chip_dir_of(true, configured, Some(beside)) == beside,
        chip_dir_of(true, configured, None) == configured,
{
}

} // verus!
