//! This module implements a check for CWE-215: Information Exposure Through
//! Debug Information.
//!
//! Sensitive debugging information can be leveraged to get a better
//! understanding of a binary in less time.
//!
//! ## How the check works
//!
//! For ELF binaries we check whether they contain sections containing debug
//! information, i.e. sections whose name starts with `.debug`.
//! Other binary formats are currently not supported by this check.

use crate::log::{CweWarning, LogLevel, LogMessage};
use vstd::prelude::*;
use vstd::string::{StrSliceExecFns, StringExecFns};

verus! {

/// The name of the check.
pub const CWE_MODULE_NAME: &'static str = "CWE215";

/// The version of the check.
pub const CWE_MODULE_VERSION: &'static str = "0.2";

/// What parsing a binary yields for this check.
#[derive(Debug, Clone)]
pub enum ObjectSections {
    /// An ELF file: the names of its sections, in the order of the section
    /// headers (`None` where the name is not found in the string table).
    Elf(Vec<Option<String>>),
    /// A file of another format.
    NotElf,
    /// The file could not be parsed: the parser's error message.
    ParseError(String),
}

/// The contents of [`ObjectSections`].
pub enum ObjectSectionsView {
    Elf(Seq<Option<Seq<char>>>),
    NotElf,
    ParseError(Seq<char>),
}

/// The contents of an optional string.
pub open spec fn option_string_view(n: Option<String>) -> Option<Seq<char>> {
    match n {
        Some(s) => Some(s@),
        None => None,
    }
}

impl View for ObjectSections {
    type V = ObjectSectionsView;

    open spec fn view(&self) -> ObjectSectionsView {
        match self {
            ObjectSections::Elf(names) => ObjectSectionsView::Elf(
                names@.map_values(|n: Option<String>| option_string_view(n)),
            ),
            ObjectSections::NotElf => ObjectSectionsView::NotElf,
            ObjectSections::ParseError(msg) => ObjectSectionsView::ParseError(msg@),
        }
    }
}

/// What `goblin::Object::parse` makes of `binary`, reduced to the section
/// names of an ELF file (looked up in its section header string table) or the
/// text of the parse error.
pub uninterp spec fn goblin_object_sections(binary: Seq<u8>) -> ObjectSectionsView;

/// The bytes go to one of `goblin`'s format parsers: they are at least 16
/// bytes long (goblin's hint size) and begin with the magic of an ELF file
/// (`\x7fELF`), a Unix archive (`!<arch>\n`), a PE file (`MZ`) or a
/// single-architecture Mach-O image (`MH_MAGIC`, `MH_CIGAM`, `MH_MAGIC_64`,
/// `MH_CIGAM_64`, read big endian). Each of those parsers does unchecked
/// arithmetic on values read from the file (goblin 0.7.1: the GNU hash table
/// offsets of `elf/mod.rs`, the optional header offsets of `pe/mod.rs`, the
/// name and symbol indices of `archive/mod.rs`, the entry point of
/// `mach/mod.rs`), so it panics on some crafted input. Other input (too
/// short, of unknown magic, or a multi-architecture Mach-O container, whose
/// header alone is read) is only peeked at.
pub open spec fn object_format_image(binary: Seq<u8>) -> bool {
    &&& binary.len() >= 16
    &&& {
        let m = (binary[0], binary[1], binary[2], binary[3]);
        ||| m == (0x7fu8, 0x45u8, 0x4cu8, 0x46u8)
        ||| binary.subrange(0, 8) == seq![0x21u8, 0x3cu8, 0x61u8, 0x72u8, 0x63u8, 0x68u8, 0x3eu8, 0x0au8]
        ||| binary[0] == 0x4du8 && binary[1] == 0x5au8
        ||| m == (0xfeu8, 0xedu8, 0xfau8, 0xceu8)
        ||| m == (0xceu8, 0xfau8, 0xedu8, 0xfeu8)
        ||| m == (0xfeu8, 0xedu8, 0xfau8, 0xcfu8)
        ||| m == (0xcfu8, 0xfau8, 0xedu8, 0xfeu8)
    }
}

/// Whether the bytes go to one of `goblin`'s format parsers.
pub fn is_object_format_image(binary: &[u8]) -> (r: bool)
    ensures
        r == object_format_image(binary@),
{
    if binary.len() < 16 {
        return false;
    }
    let m = (binary[0], binary[1], binary[2], binary[3]);
    let elf = m.0 == 0x7f && m.1 == 0x45 && m.2 == 0x4c && m.3 == 0x46;
    let archive = m.0 == 0x21 && m.1 == 0x3c && m.2 == 0x61 && m.3 == 0x72 && binary[4] == 0x63
        && binary[5] == 0x68 && binary[6] == 0x3e && binary[7] == 0x0a;
    let pe = m.0 == 0x4d && m.1 == 0x5a;
    let mach = (m.0 == 0xfe && m.1 == 0xed && m.2 == 0xfa && m.3 == 0xce) || (m.0 == 0xce && m.1
        == 0xfa && m.2 == 0xed && m.3 == 0xfe) || (m.0 == 0xfe && m.1 == 0xed && m.2 == 0xfa && m.3
        == 0xcf) || (m.0 == 0xcf && m.1 == 0xfa && m.2 == 0xed && m.3 == 0xfe);
    assert(archive == (binary@.subrange(0, 8) =~= seq![
        0x21u8,
        0x3cu8,
        0x61u8,
        0x72u8,
        0x63u8,
        0x68u8,
        0x3eu8,
        0x0au8,
    ]));
    elf || archive || pe || mach
}

/// Parses `binary` with `goblin::Object::parse`. For an ELF file the names of
/// its sections are looked up with `Strtab::get_at` at each section header's
/// `sh_name`; a parse error is rendered with its `Display` text. The result is
/// a function of the bytes alone. Input that goes to one of goblin's format
/// parsers, which panic on some crafted input, is left out.
#[verifier::external_body]
fn parse_object_sections(binary: &[u8]) -> (r: ObjectSections)
    requires
        !object_format_image(binary@),
    ensures
        r@ == goblin_object_sections(binary@),
{
    match goblin::Object::parse(binary) {
        Ok(goblin::Object::Elf(elf)) => ObjectSections::Elf(
            elf.section_headers.iter().map(
                |header| elf.shdr_strtab.get_at(header.sh_name).map(|name| name.to_string()),
            ).collect(),
        ),
        Ok(_) => ObjectSections::NotElf,
        Err(err) => ObjectSections::ParseError(format!("{err}")),
    }
}

/// The name starts with `.debug`.
pub open spec fn is_debug_section_name(name: Seq<char>) -> bool {
    name.len() >= 6 && name.subrange(0, 6) == seq!['.', 'd', 'e', 'b', 'u', 'g']
}

/// Some section of the list has a name that starts with `.debug`.
pub open spec fn has_debug_section(names: Seq<Option<Seq<char>>>) -> bool {
    exists|i: int|
        0 <= i < names.len() && #[trigger] names[i] is Some && is_debug_section_name(
            names[i]->Some_0,
        )
}

/// Every section is looked at: a section at any position whose name starts
/// with `.debug` makes the list one with a debug section, and a list has a
/// debug section only where one of its names starts with `.debug`.
pub proof fn lemma_every_section_looked_at(names: Seq<Option<Seq<char>>>, i: int)
    ensures
        0 <= i < names.len() && names[i] is Some && names[i]->Some_0.len() >= 6
            && names[i]->Some_0.subrange(0, 6) == seq!['.', 'd', 'e', 'b', 'u', 'g']
            ==> has_debug_section(names),
        has_debug_section(names) ==> exists|k: int|
            0 <= k < names.len() && #[trigger] names[k] is Some && names[k]->Some_0.len() >= 6
                && names[k]->Some_0.subrange(0, 6) == seq!['.', 'd', 'e', 'b', 'u', 'g'],
{
    if 0 <= i < names.len() && names[i] is Some && names[i]->Some_0.len() >= 6
        && names[i]->Some_0.subrange(0, 6) == seq!['.', 'd', 'e', 'b', 'u', 'g'] {
        assert(names[i] is Some && is_debug_section_name(names[i]->Some_0));
    }
}

/// The logs and warnings of the check for a parsed binary: a warning for an
/// ELF file with a debug section, nothing for another ELF file, an info
/// message for another file format and an error message when parsing failed.
pub open spec fn check_result(
    sections: ObjectSectionsView,
    logs: Seq<LogMessage>,
    warnings: Seq<CweWarning>,
) -> bool {
    match sections {
        ObjectSectionsView::Elf(names) => {
            &&& logs.len() == 0
            &&& if has_debug_section(names) {
                &&& warnings.len() == 1
                &&& warnings[0].name@ == CWE_MODULE_NAME@
                &&& warnings[0].version@ == CWE_MODULE_VERSION@
                &&& warnings[0].description@
                    == "(Information Exposure Through Debug Information) The binary contains debug symbols."@
                &&& warnings[0].addresses@.len() == 0
                &&& warnings[0].tids@.len() == 0
                &&& warnings[0].symbols@.len() == 0
                &&& warnings[0].other@.len() == 0
            } else {
                warnings.len() == 0
            }
        },
        ObjectSectionsView::NotElf => {
            &&& warnings.len() == 0
            &&& logs.len() == 1
            &&& logs[0].level == LogLevel::Info
            &&& logs[0].text@
                == "File type not supported. Currently this check only supports ELF files."@
            &&& logs[0].location is None
            &&& logs[0].source matches Some(s) && s@ == CWE_MODULE_NAME@
        },
        ObjectSectionsView::ParseError(msg) => {
            &&& warnings.len() == 0
            &&& logs.len() == 1
            &&& logs[0].level == LogLevel::Error
            &&& logs[0].text@ == "Error while parsing binary: "@ + msg
            &&& logs[0].location is None
            &&& logs[0].source matches Some(s) && s@ == CWE_MODULE_NAME@
        },
    }
}

/// Whether `name` starts with `.debug`.
fn starts_with_debug(name: &String) -> (r: bool)
    ensures
        r == is_debug_section_name(name@),
{
    let s = name.as_str();
    if s.unicode_len() < 6 {
        return false;
    }
    let r = s.get_char(0) == '.' && s.get_char(1) == 'd' && s.get_char(2) == 'e' && s.get_char(3)
        == 'b' && s.get_char(4) == 'u' && s.get_char(5) == 'g';
    assert(r == (s@.subrange(0, 6) =~= seq!['.', 'd', 'e', 'b', 'u', 'g']));
    r
}

/// The logs and warnings of the check for a parsed binary.
pub fn check_sections(sections: &ObjectSections) -> (r: (Vec<LogMessage>, Vec<CweWarning>))
    ensures
        check_result(sections@, r.0@, r.1@),
        sections@ matches ObjectSectionsView::Elf(names) ==> r.0@.len() == 0 && r.1@.len() <= 1 && (
        r.1@.len() == 1 <==> exists|i: int|
            0 <= i < names.len() && #[trigger] names[i] is Some && names[i]->Some_0.len() >= 6
                && names[i]->Some_0.subrange(0, 6) == seq!['.', 'd', 'e', 'b', 'u', 'g']),
{
    let r = check_sections_of(sections);
    proof {
        if let ObjectSectionsView::Elf(names) = sections@ {
            if exists|i: int|
                0 <= i < names.len() && #[trigger] names[i] is Some && names[i]->Some_0.len() >= 6
                    && names[i]->Some_0.subrange(0, 6) == seq!['.', 'd', 'e', 'b', 'u', 'g'] {
                let i = choose|i: int|
                    0 <= i < names.len() && #[trigger] names[i] is Some && names[i]->Some_0.len()
                        >= 6 && names[i]->Some_0.subrange(0, 6) == seq!['.', 'd', 'e', 'b', 'u', 'g'];
                lemma_every_section_looked_at(names, i);
            }
            lemma_every_section_looked_at(names, 0);
        }
    }
    r
}

/// The logs and warnings of the check for a parsed binary, as
/// [`check_result`] describes them.
fn check_sections_of(sections: &ObjectSections) -> (r: (Vec<LogMessage>, Vec<CweWarning>))
    ensures
        check_result(sections@, r.0@, r.1@),
{
    match sections {
        ObjectSections::Elf(names) => {
            let ghost view = names@.map_values(|n: Option<String>| option_string_view(n));
            assert(sections@ == ObjectSectionsView::Elf(view));
            for i in 0..names.len()
                invariant
                    sections@ == ObjectSectionsView::Elf(view),
                    view == names@.map_values(|n: Option<String>| option_string_view(n)),
                    forall|j: int|
                        0 <= j < i ==> !(#[trigger] view[j] is Some && is_debug_section_name(
                            view[j]->Some_0,
                        )),
            {
                if let Some(section_name) = &names[i] {
                    if starts_with_debug(section_name) {
                        let cwe_warning = CweWarning::new(
                            String::from_str(CWE_MODULE_NAME),
                            String::from_str(CWE_MODULE_VERSION),
                            String::from_str(
                                "(Information Exposure Through Debug Information) The binary contains debug symbols.",
                            ),
                        );
                        let mut warnings: Vec<CweWarning> = Vec::new();
                        warnings.push(cwe_warning);
                        assert(view[i as int] is Some && is_debug_section_name(
                            view[i as int]->Some_0,
                        ));
                        assert(has_debug_section(view));
                        return (Vec::new(), warnings);
                    }
                }
            }
            (Vec::new(), Vec::new())
        },
        ObjectSections::NotElf => {
            let info_log = LogMessage::new_info(
                String::from_str(
                    "File type not supported. Currently this check only supports ELF files.",
                ),
            ).source(String::from_str(CWE_MODULE_NAME));
            let mut logs: Vec<LogMessage> = Vec::new();
            logs.push(info_log);
            (logs, Vec::new())
        },
        ObjectSections::ParseError(err) => {
            let mut text = String::from_str("Error while parsing binary: ");
            text.append(err.as_str());
            let err_log = LogMessage::new_error(text).source(String::from_str(CWE_MODULE_NAME));
            let mut logs: Vec<LogMessage> = Vec::new();
            logs.push(err_log);
            (logs, Vec::new())
        },
    }
}

/// Run the check: we simply check whether the ELF file still contains
/// sections whose name starts with `.debug`. Binary formats other than ELF
/// files are currently not supported by this check. Input that goes to one of
/// goblin's format parsers, which may panic on it, is left to the caller:
/// [`is_object_format_image`] tells it, and [`check_sections`] decides once
/// the caller has parsed it.
pub fn check_cwe(binary: &[u8]) -> (r: (Vec<LogMessage>, Vec<CweWarning>))
    requires
        !object_format_image(binary@),
    ensures
        check_result(goblin_object_sections(binary@), r.0@, r.1@),
{
    let sections = parse_object_sections(binary);
    check_sections(&sections)
}

} // verus!
