//! The report of the source files that collected targets and never generated
//! their plugin function.

use crate::file_state::{get_files_missing_plugin, FileStateMap};
use vstd::prelude::*;

verus! {

/// How a missing plugin function is reported. One severity holds for a whole
/// build.
#[derive(Clone, Copy, Debug, PartialEq, Eq, Structural)]
pub enum MissingPluginSeverity {
    /// Nothing is reported.
    Off,
    /// Each file is logged as a warning.
    Warning,
    /// Each file is logged as an error.
    Error,
    /// The build fails, with one error that names every file.
    CompileError,
}

/// What is to be emitted for the files that miss their plugin function.
#[derive(Clone, Debug, PartialEq, Eq)]
pub enum MissingPluginReport {
    /// Nothing.
    Silent,
    /// One log call per message, as warnings or as errors.
    Log { error: bool, messages: Vec<String> },
    /// One compile error with this message.
    CompileError { message: String },
}

/// The diagnostic for a file that misses its plugin function.
pub open spec fn missing_message(file_path: Seq<char>) -> Seq<char> {
    "missing #[auto_plugin(...)] attribute in file: "@ + file_path
}

/// The diagnostics for the files `missing`, in order.
pub open spec fn missing_messages(missing: Seq<Seq<char>>) -> Seq<Seq<char>> {
    Seq::new(missing.len(), |k: int| missing_message(missing[k]))
}

/// The texts `lines`, each on a line of its own.
pub open spec fn joined(lines: Seq<Seq<char>>) -> Seq<char>
    decreases lines.len(),
{
    if lines.len() == 0 {
        Seq::empty()
    } else if lines.len() == 1 {
        lines[0]
    } else {
        joined(lines.drop_last()) + "\n"@ + lines.last()
    }
}

/// The views of the texts of `lines`.
pub open spec fn views_of(lines: Seq<String>) -> Seq<Seq<char>> {
    Seq::new(lines.len(), |k: int| lines[k]@)
}

/// What is to be emitted, at `severity`, for the files `missing`.
pub open spec fn reports(
    report: MissingPluginReport,
    missing: Seq<Seq<char>>,
    severity: MissingPluginSeverity,
) -> bool {
    if missing.len() == 0 {
        report is Silent
    } else {
        match severity {
            MissingPluginSeverity::Off => report is Silent,
            MissingPluginSeverity::Warning => report matches MissingPluginReport::Log {
                error,
                messages,
            } && !error && views_of(messages@) == missing_messages(missing),
            MissingPluginSeverity::Error => report matches MissingPluginReport::Log {
                error,
                messages,
            } && error && views_of(messages@) == missing_messages(missing),
            MissingPluginSeverity::CompileError => report matches MissingPluginReport::CompileError {
                message,
            } && message@ == joined(missing_messages(missing)),
        }
    }
}

/// The diagnostic for the file `file_path`, which misses its plugin function.
pub fn missing_plugin_message(file_path: &str) -> (r: String)
    ensures
        r@ == missing_message(file_path@),
{
    let mut message = String::from_str("missing #[auto_plugin(...)] attribute in file: ");
    message.append(file_path);
    message
}

/// The texts of `lines`, each on a line of its own.
pub fn join_lines(lines: &Vec<String>) -> (r: String)
    ensures
        r@ == joined(views_of(lines@)),
{
    let mut out = String::new();
    let mut index: usize = 0;
    while index < lines.len()
        invariant
            index <= lines@.len(),
            out@ == joined(views_of(lines@).take(index as int)),
        decreases lines@.len() - index,
    {
        let ghost before = views_of(lines@).take(index as int);
        let ghost now = views_of(lines@).take(index + 1);
        assert(now.drop_last() == before);
        assert(now.last() == lines@[index as int]@);
        if index > 0 {
            out.append("\n");
        } else {
            assert(out@ + lines@[index as int]@ == lines@[index as int]@);
        }
        out.append(lines[index].as_str());
        index = index + 1;
    }
    assert(views_of(lines@).take(lines@.len() as int) == views_of(lines@));
    out
}

/// Reports, at `severity`, every file that was seen and never finalised: each
/// exactly once, in the order in which the files were first seen. The map is
/// not changed.
pub fn files_missing_plugin_ts(map: &FileStateMap, severity: MissingPluginSeverity) -> (r:
    MissingPluginReport)
    requires
        map.wf(),
    ensures
        reports(r, map@.missing(), severity),
{
    let missing_plugin_files = get_files_missing_plugin(map);
    if missing_plugin_files.len() == 0 {
        return MissingPluginReport::Silent;
    }
    let mut messages: Vec<String> = Vec::new();
    let mut index: usize = 0;
    while index < missing_plugin_files.len()
        invariant
            index <= missing_plugin_files@.len(),
            messages@.len() == index,
            forall|k: int|
                0 <= k < index ==> (#[trigger] messages@[k])@ == missing_message(
                    missing_plugin_files@[k]@,
                ),
        decreases missing_plugin_files@.len() - index,
    {
        messages.push(missing_plugin_message(missing_plugin_files[index].as_str()));
        index = index + 1;
    }
    assert(views_of(messages@) =~= missing_messages(map@.missing()));
    match severity {
        MissingPluginSeverity::Off => MissingPluginReport::Silent,
        MissingPluginSeverity::Warning => MissingPluginReport::Log { error: false, messages },
        MissingPluginSeverity::Error => MissingPluginReport::Log { error: true, messages },
        MissingPluginSeverity::CompileError => MissingPluginReport::CompileError {
            message: join_lines(&messages),
        },
    }
}

} // verus!
