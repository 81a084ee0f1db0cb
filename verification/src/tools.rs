//! The outside programs that help with PDFs: a layout-text extractor, a
//! page rasterizer and an OCR engine. Each may be missing; the index then
//! goes without it and says so in a warning.

use vstd::prelude::*;
use vstd::string::StringExecFns;
use crate::chars::{ends_with, from_chars, has_suffix, push_str, to_chars};

verus! {

/// The operating systems whose usual install directories are known.
#[derive(Debug, Clone, Copy, PartialEq, Eq, Structural)]
pub enum Platform {
    MacOs,
    Linux,
    Windows,
    Other,
}

/// Where each of the three programs was found, if it was.
#[derive(Debug)]
pub struct CommandPaths {
    pub pdftoppm: Option<String>,
    pub tesseract: Option<String>,
    pub pdftotext: Option<String>,
}

/// The programs that were found and the names of those that were not.
#[derive(Debug)]
pub struct CommandStatus {
    pub paths: CommandPaths,
    pub missing: Vec<String>,
}

/// The names of the programs that were not found, in the order
/// rasterizer, OCR engine, text extractor.
pub open spec fn missing_names(
    pdftoppm: Option<Seq<char>>,
    tesseract: Option<Seq<char>>,
    pdftotext: Option<Seq<char>>,
) -> Seq<Seq<char>> {
    (if pdftoppm is None {
        seq!["pdftoppm"@]
    } else {
        Seq::empty()
    }) + (if tesseract is None {
        seq!["tesseract"@]
    } else {
        Seq::empty()
    }) + (if pdftotext is None {
        seq!["pdftotext"@]
    } else {
        Seq::empty()
    })
}

/// Gathers where the three programs were found and lists those that were not.
pub fn resolve_command_status(
    pdftoppm: Option<String>,
    tesseract: Option<String>,
    pdftotext: Option<String>,
) -> (status: CommandStatus)
    ensures
        status.paths.pdftoppm.deep_view() == pdftoppm.deep_view(),
        status.paths.tesseract.deep_view() == tesseract.deep_view(),
        status.paths.pdftotext.deep_view() == pdftotext.deep_view(),
        status.missing.deep_view() == missing_names(
            pdftoppm.deep_view(),
            tesseract.deep_view(),
            pdftotext.deep_view(),
        ),
{
    let mut missing: Vec<String> = Vec::new();
    if pdftoppm.is_none() {
        missing.push(String::from_str("pdftoppm"));
    }
    if tesseract.is_none() {
        missing.push(String::from_str("tesseract"));
    }
    if pdftotext.is_none() {
        missing.push(String::from_str("pdftotext"));
    }
    assert(missing.deep_view() =~= missing_names(
        pdftoppm.deep_view(),
        tesseract.deep_view(),
        pdftotext.deep_view(),
    ));
    CommandStatus { paths: CommandPaths { pdftoppm, tesseract, pdftotext }, missing }
}

/// Whether OCR can run: it takes the rasterizer and the OCR engine.
pub fn is_ocr_available(status: &CommandStatus) -> (available: bool)
    ensures
        available == (status.paths.pdftoppm is Some && status.paths.tesseract is Some),
{
    status.paths.pdftoppm.is_some() && status.paths.tesseract.is_some()
}

/// The names with a comma and a space between each two.
pub open spec fn comma_joined(names: Seq<Seq<char>>) -> Seq<char>
    decreases names.len(),
{
    if names.len() == 0 {
        Seq::empty()
    } else if names.len() == 1 {
        names[0]
    } else {
        comma_joined(names.drop_last()) + ", "@ + names.last()
    }
}

/// The warning that names the missing programs.
pub open spec fn missing_tools_warning(missing: Seq<Seq<char>>) -> Seq<char> {
    "PDF extraction tools missing: "@ + comma_joined(missing)
        + ". Install them to enable full PDF scanning (e.g. `brew install poppler tesseract`)."@
}

/// The one warning that names every missing program, or nothing if none is missing.
pub fn ocr_status_message(status: &CommandStatus) -> (message: Option<String>)
    ensures
        status.missing.len() == 0 ==> message is None,
        status.missing.len() > 0 ==> message.deep_view() == Some(
            missing_tools_warning(status.missing.deep_view()),
        ),
{
    if status.missing.len() == 0 {
        return None;
    }
    let mut text: Vec<char> = Vec::new();
    push_str(&mut text, "PDF extraction tools missing: ");
    let ghost head = text@;
    let mut i: usize = 0;
    assert(status.missing.deep_view().take(0) =~= Seq::empty());
    assert(head + Seq::<char>::empty() =~= head);
    while i < status.missing.len()
        invariant
            i <= status.missing.len(),
            text@ == head + comma_joined(status.missing.deep_view().take(i as int)),
        decreases status.missing.len() - i,
    {
        let ghost prefix = status.missing.deep_view().take(i + 1);
        assert(prefix.drop_last() =~= status.missing.deep_view().take(i as int));
        assert(prefix.last() == status.missing[i as int]@);
        if i > 0 {
            push_str(&mut text, ", ");
        } else {
            assert(prefix[0] == status.missing[0]@);
        }
        push_str(&mut text, status.missing[i].as_str());
        assert(text@ =~= head + comma_joined(prefix));
        i += 1;
    }
    assert(status.missing.deep_view().take(status.missing.len() as int)
        =~= status.missing.deep_view());
    push_str(
        &mut text,
        ". Install them to enable full PDF scanning (e.g. `brew install poppler tesseract`).",
    );
    Some(from_chars(text.as_slice()))
}

/// The directories in which the programs are usually installed.
pub open spec fn usual_dirs(platform: Platform) -> Seq<Seq<char>> {
    match platform {
        Platform::MacOs => seq![
            "/opt/homebrew/bin"@,
            "/usr/local/bin"@,
            "/usr/bin"@,
            "/bin"@,
            "/opt/local/bin"@,
        ],
        Platform::Linux => seq!["/usr/local/bin"@, "/usr/bin"@, "/bin"@, "/snap/bin"@],
        Platform::Windows => seq![
            "C:\\Program Files\\Tesseract-OCR"@,
            "C:\\Program Files (x86)\\Tesseract-OCR"@,
            "C:\\Program Files\\poppler\\bin"@,
            "C:\\Program Files (x86)\\poppler\\bin"@,
        ],
        Platform::Other => Seq::empty(),
    }
}

/// The directories that are searched after those of the search path.
pub fn default_command_dirs(platform: Platform) -> (dirs: Vec<String>)
    ensures
        dirs.deep_view() == usual_dirs(platform),
{
    let mut dirs: Vec<String> = Vec::new();
    match platform {
        Platform::MacOs => {
            dirs.push(String::from_str("/opt/homebrew/bin"));
            dirs.push(String::from_str("/usr/local/bin"));
            dirs.push(String::from_str("/usr/bin"));
            dirs.push(String::from_str("/bin"));
            dirs.push(String::from_str("/opt/local/bin"));
        },
        Platform::Linux => {
            dirs.push(String::from_str("/usr/local/bin"));
            dirs.push(String::from_str("/usr/bin"));
            dirs.push(String::from_str("/bin"));
            dirs.push(String::from_str("/snap/bin"));
        },
        Platform::Windows => {
            dirs.push(String::from_str("C:\\Program Files\\Tesseract-OCR"));
            dirs.push(String::from_str("C:\\Program Files (x86)\\Tesseract-OCR"));
            dirs.push(String::from_str("C:\\Program Files\\poppler\\bin"));
            dirs.push(String::from_str("C:\\Program Files (x86)\\poppler\\bin"));
        },
        Platform::Other => {},
    }
    assert(dirs.deep_view() =~= usual_dirs(platform));
    dirs
}

/// `.exe`, the ending of a program's file name on Windows.
pub open spec fn exe_suffix() -> Seq<char> {
    ".exe"@
}

/// The file names under which a program is looked for: its name, and on
/// Windows its name with `.exe` as well, unless it ends so already.
pub open spec fn candidate_names(command: Seq<char>, platform: Platform) -> Seq<Seq<char>> {
    if platform == Platform::Windows && !ends_with(command, exe_suffix()) {
        seq![command, command + exe_suffix()]
    } else {
        seq![command]
    }
}

/// The directories in which a program is looked for: those of the search
/// path, then the usual ones.
pub open spec fn search_dirs(path_dirs: Seq<Seq<char>>, platform: Platform) -> Seq<Seq<char>> {
    path_dirs + usual_dirs(platform)
}

/// The file names under which a program is looked for.
pub fn command_names(command: &str, platform: Platform) -> (names: Vec<String>)
    ensures
        names.deep_view() == candidate_names(command@, platform),
{
    let mut names: Vec<String> = Vec::new();
    names.push(String::from_str(command));
    if platform == Platform::Windows {
        let chars = to_chars(command);
        let suffix = to_chars(".exe");
        if !has_suffix(chars.as_slice(), suffix.as_slice()) {
            let mut with_suffix = String::from_str(command);
            with_suffix.append(".exe");
            names.push(with_suffix);
        }
    }
    assert(names.deep_view() =~= candidate_names(command@, platform));
    names
}

/// The directories in which a program is looked for, in their order.
pub fn command_dirs(path_dirs: &Vec<String>, platform: Platform) -> (dirs: Vec<String>)
    ensures
        dirs.deep_view() == search_dirs(path_dirs.deep_view(), platform),
{
    let mut dirs = path_dirs.clone();
    let mut usual = default_command_dirs(platform);
    let ghost first = dirs.deep_view();
    let ghost second = usual.deep_view();
    dirs.append(&mut usual);
    assert(dirs.deep_view() =~= first + second);
    assert(first =~= path_dirs.deep_view());
    dirs
}

} // verus!
