//! Where a profile is written by default.
use vstd::prelude::*;
use crate::config;
use crate::text;
use crate::text::{push_decimal, push_text, text_of};

verus! {

/// Environment variable that names the output file.
pub const ENV_PROFILE_OUT: &'static str = "SNMALLOC_PROFILE_OUT";

/// Environment variable that names a test's output directory.
pub const ENV_TEST_OUTPUTS: &'static str = "TEST_UNDECLARED_OUTPUTS_DIR";

/// A path to write to.
#[derive(Debug)]
pub enum OutputPath {
    /// The path as given.
    Verbatim(String),
    /// A file of the given name in the given directory.
    InDirectory { directory: String, file_name: String },
    /// A file of the given name in the system's directory for temporary
    /// files.
    InTemporary { file_name: String },
}

/// The mathematical content of a path.
#[verifier::ext_equal]
pub enum PathView {
    Verbatim(Seq<char>),
    InDirectory { directory: Seq<char>, file_name: Seq<char> },
    InTemporary { file_name: Seq<char> },
}

impl View for OutputPath {
    type V = PathView;

    open spec fn view(&self) -> PathView {
        match self {
            OutputPath::Verbatim(path) => PathView::Verbatim(path@),
            OutputPath::InDirectory { directory, file_name } => PathView::InDirectory {
                directory: directory@,
                file_name: file_name@,
            },
            OutputPath::InTemporary { file_name } => PathView::InTemporary { file_name: file_name@ },
        }
    }
}

/// A variable that is set to a text that is not empty.
pub open spec fn given(var: Option<Seq<char>>) -> Option<Seq<char>> {
    match var {
        Some(s) => if s.len() > 0 {
            Some(s)
        } else {
            None
        },
        None => None,
    }
}

/// The default path: the named file, or else a file in the test's output
/// directory, or else a temporary file whose name tells processes apart.
pub open spec fn chosen_path(out: Option<Seq<char>>, outputs: Option<Seq<char>>, pid: u32) -> PathView {
    match given(out) {
        Some(path) => PathView::Verbatim(path),
        None => match given(outputs) {
            Some(directory) => PathView::InDirectory { directory, file_name: "heap.folded"@ },
            None => PathView::InTemporary {
                file_name: "heap_"@ + text::decimal(pid as nat) + ".folded"@,
            },
        },
    }
}

/// The default path, given the values of [`ENV_PROFILE_OUT`] and
/// [`ENV_TEST_OUTPUTS`] and the number of the process.
pub fn default_output_path(out: Option<&str>, outputs: Option<&str>, pid: u32) -> (path: OutputPath)
    ensures
        path@ == chosen_path(config::var_view(out), config::var_view(outputs), pid),
{
    if let Some(path) = out {
        if !path.is_empty() {
            return OutputPath::Verbatim(path.to_owned());
        }
    }
    if let Some(directory) = outputs {
        if !directory.is_empty() {
            return OutputPath::InDirectory {
                directory: directory.to_owned(),
                file_name: "heap.folded".to_owned(),
            };
        }
    }
    let mut name: Vec<char> = Vec::new();
    push_text(&mut name, "heap_");
    push_decimal(&mut name, pid as u128);
    push_text(&mut name, ".folded");
    let file_name = text_of(&name);
    assert(file_name@ =~= "heap_"@ + text::decimal(pid as nat) + ".folded"@);
    OutputPath::InTemporary { file_name }
}

/// Processes with different numbers get different temporary files.
pub proof fn temporary_files_differ(a: u32, b: u32)
    requires
        a != b,
    ensures
        chosen_path(None, None, a) != chosen_path(None, None, b),
{
    text::decimal_reads_back(a as nat);
    text::decimal_reads_back(b as nat);
    let head = "heap_"@;
    let tail = ".folded"@;
    let na = head + text::decimal(a as nat) + tail;
    let nb = head + text::decimal(b as nat) + tail;
    if na == nb {
        let n = (na.len() - tail.len()) as int;
        assert(na.subrange(head.len() as int, n) =~= text::decimal(a as nat));
        assert(nb.subrange(head.len() as int, n) =~= text::decimal(b as nat));
    }
}

/// A file that is named is written to as named. Otherwise a file `heap.folded`
/// in the test's output directory is, where one is given; otherwise a temporary
/// file whose name holds the number of the process. A variable that is empty
/// counts as not set.
pub proof fn named_files_come_first(
    out: Option<&str>,
    outputs: Option<&str>,
    pid: u32,
    path: OutputPath,
)
    requires
        call_ensures(default_output_path, (out, outputs, pid), path),
    ensures
        out is Some && out->0@.len() > 0 ==> path is Verbatim && path->Verbatim_0@ == out->0@,
        (out is None || out->0@.len() == 0) && outputs is Some && outputs->0@.len() > 0
            ==> path is InDirectory && path->directory@ == outputs->0@ && path->InDirectory_file_name@
            == "heap.folded"@,
        (out is None || out->0@.len() == 0) && (outputs is None || outputs->0@.len() == 0)
            ==> path is InTemporary && exists|digits: Seq<char>| #[trigger]
            text::in_decimal(digits, pid as nat) && path->InTemporary_file_name@ == "heap_"@ + digits
                + ".folded"@,
{
    text::decimals_are_digits(pid as nat);
    assert(text::in_decimal(text::decimal(pid as nat), pid as nat));
    assert(path@ == chosen_path(config::var_view(out), config::var_view(outputs), pid));
}

} // verus!
