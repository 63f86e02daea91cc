use cwe_checker_lib::checkers::cwe_215::{self, ObjectSections};
use cwe_checker_lib::checkers::cwe_476::{self, deduplicate_warnings};
use cwe_checker_lib::checkers::cwe_676::{
    self, generate_cwe_warnings, get_calls, get_calls_to_symbols, resolve_symbols,
};
use cwe_checker_lib::intermediate_representation::{Blk, ExternSymbol, Jmp, Program, Sub, Term, Tid};
use cwe_checker_lib::log::{CweWarning, LogLevel};

fn tid(id: &str, address: &str) -> Tid {
    Tid { id: id.to_string(), address: address.to_string() }
}

fn call(jmp_id: &str, address: &str, target: &Tid) -> Term<Jmp> {
    Term { tid: tid(jmp_id, address), term: Jmp::Call { target: target.clone(), return_: None } }
}

fn extern_symbol(id: &str, name: &str) -> ExternSymbol {
    ExternSymbol {
        tid: tid(id, "EXTERNAL"),
        addresses: vec!["EXTERNAL".to_string()],
        name: name.to_string(),
        calling_convention: None,
        no_return: false,
        has_var_args: false,
    }
}

fn sample_program() -> Program {
    let strcpy = tid("sym_strcpy", "EXTERNAL");
    let puts = tid("sym_puts", "EXTERNAL");
    let main_blk = Term {
        tid: tid("blk_main", "0x1000"),
        term: Blk {
            jmps: vec![
                call("jmp_main_1", "0x1010", &strcpy),
                call("jmp_main_2", "0x1020", &puts),
                Term { tid: tid("jmp_main_3", "0x1030"), term: Jmp::Branch(tid("blk_main", "0x1000")) },
            ],
            indirect_jmp_targets: vec![],
        },
    };
    let helper_blk = Term {
        tid: tid("blk_helper", "0x0100"),
        term: Blk { jmps: vec![call("jmp_helper", "0x0110", &strcpy)], indirect_jmp_targets: vec![] },
    };
    Program {
        subs: vec![
            Term {
                tid: tid("sub_helper", "0x0100"),
                term: Sub { name: "helper".to_string(), blocks: vec![helper_blk], calling_convention: None },
            },
            Term {
                tid: tid("sub_main", "0x1000"),
                term: Sub { name: "main".to_string(), blocks: vec![main_blk], calling_convention: None },
            },
        ],
        extern_symbols: vec![extern_symbol("sym_puts", "puts"), extern_symbol("sym_strcpy", "strcpy")],
        entry_points: vec![],
        address_base_offset: 0,
    }
}

#[test]
fn resolve_symbols_keeps_configured_names() {
    let program = sample_program();
    let symbols = vec!["strcpy".to_string(), "memcpy".to_string()];
    let resolved = resolve_symbols(&program.extern_symbols, &symbols);
    assert_eq!(resolved.len(), 1);
    assert_eq!(resolved[0].0, tid("sym_strcpy", "EXTERNAL"));
    assert_eq!(resolved[0].1, "strcpy");
}

#[test]
fn get_calls_finds_calls_in_order() {
    let program = sample_program();
    let resolved = resolve_symbols(&program.extern_symbols, &vec!["strcpy".to_string()]);
    let calls = get_calls(&program.subs, &resolved);
    assert_eq!(calls.len(), 2);
    assert_eq!(calls[0].0, "helper");
    assert_eq!(calls[0].1, tid("jmp_helper", "0x0110"));
    assert_eq!(calls[0].2, "strcpy");
    assert_eq!(calls[1].0, "main");
    assert_eq!(calls[1].1, tid("jmp_main_1", "0x1010"));
    let in_main = get_calls_to_symbols(&program.subs[1], &resolved);
    assert_eq!(in_main.len(), 1);
}

#[test]
fn generate_cwe_warnings_sorts_and_describes() {
    let calls = vec![
        ("main".to_string(), tid("jmp_main_1", "0x1010"), "strcpy".to_string()),
        ("helper".to_string(), tid("jmp_helper", "0x0110"), "strcpy".to_string()),
    ];
    let warnings = generate_cwe_warnings(calls);
    assert_eq!(warnings.len(), 2);
    assert_eq!(warnings[0].addresses, vec!["0x0110".to_string()]);
    assert_eq!(warnings[1].name, "CWE676");
    assert_eq!(warnings[1].version, "0.1");
    assert_eq!(
        warnings[1].description,
        "(Use of Potentially Dangerous Function) main (0x1010) -> strcpy"
    );
    assert_eq!(warnings[1].tids, vec!["jmp_main_1".to_string()]);
    assert_eq!(warnings[1].symbols, vec!["main".to_string()]);
    assert_eq!(
        warnings[1].other,
        vec![vec!["dangerous_function".to_string(), "strcpy".to_string()]]
    );
}

#[test]
fn cwe_676_check_on_program() {
    let program = sample_program();
    let config = cwe_676::Config { symbols: vec!["strcpy".to_string(), "puts".to_string()] };
    let (logs, warnings) = cwe_676::check_cwe(&program, &config);
    assert!(logs.is_empty());
    let addresses: Vec<String> = warnings.iter().map(|w| w.addresses[0].clone()).collect();
    assert_eq!(addresses, vec!["0x0110", "0x1010", "0x1020"]);
    assert_eq!(warnings[2].other[0][1], "puts");
}

#[test]
fn cwe_676_without_configured_symbols() {
    let program = sample_program();
    let config = cwe_676::Config { symbols: vec![] };
    let (logs, warnings) = cwe_676::check_cwe(&program, &config);
    assert!(logs.is_empty());
    assert!(warnings.is_empty());
}

#[test]
fn find_block_and_sub() {
    let program = sample_program();
    let block = program.find_block(&tid("blk_main", "0x1000")).unwrap();
    assert_eq!(block.term.jmps.len(), 3);
    assert!(program.find_block(&tid("blk_main", "0x9999")).is_none());
    assert_eq!(
        program.find_sub_containing_jump(&tid("jmp_main_2", "0x1020")),
        Some(tid("sub_main", "0x1000"))
    );
    assert_eq!(
        program.find_sub_containing_jump(&tid("jmp_helper", "0x0110")),
        Some(tid("sub_helper", "0x0100"))
    );
    assert_eq!(program.find_sub_containing_jump(&tid("blk_main", "0x1000")), None);
}

#[test]
fn cwe_215_reports_debug_sections() {
    let sections = ObjectSections::Elf(vec![
        None,
        Some(".text".to_string()),
        Some(".debug_info".to_string()),
    ]);
    let (logs, warnings) = cwe_215::check_sections(&sections);
    assert!(logs.is_empty());
    assert_eq!(warnings.len(), 1);
    assert_eq!(warnings[0].name, "CWE215");
    assert_eq!(warnings[0].version, "0.2");
    assert_eq!(
        warnings[0].description,
        "(Information Exposure Through Debug Information) The binary contains debug symbols."
    );
    let clean = ObjectSections::Elf(vec![Some(".text".to_string()), Some(".debu".to_string())]);
    let (logs, warnings) = cwe_215::check_sections(&clean);
    assert!(logs.is_empty() && warnings.is_empty());
}

#[test]
fn cwe_215_small_file_is_a_parse_error() {
    let (logs, warnings) = cwe_215::check_cwe(b"abc");
    assert!(warnings.is_empty());
    assert_eq!(logs.len(), 1);
    assert_eq!(logs[0].level, LogLevel::Error);
    assert_eq!(logs[0].text, "Error while parsing binary: Malformed entity: Object is too small.");
    assert_eq!(logs[0].source, Some("CWE215".to_string()));
}

#[test]
fn cwe_215_other_formats_are_not_supported() {
    let (logs, warnings) = cwe_215::check_sections(&ObjectSections::NotElf);
    assert!(warnings.is_empty());
    assert_eq!(logs[0].level, LogLevel::Info);
    assert_eq!(
        logs[0].text,
        "File type not supported. Currently this check only supports ELF files."
    );
}

#[test]
fn cwe_215_recognises_object_format_images() {
    let padded = |magic: &[u8]| {
        let mut image = magic.to_vec();
        image.resize(16, 0);
        image
    };
    assert!(cwe_215::is_object_format_image(&padded(&[0xfe, 0xed, 0xfa, 0xcf])));
    assert!(cwe_215::is_object_format_image(&padded(&[0xce, 0xfa, 0xed, 0xfe])));
    assert!(cwe_215::is_object_format_image(&padded(b"!<arch>\n")));
    assert!(cwe_215::is_object_format_image(&padded(b"MZ")));
    assert!(cwe_215::is_object_format_image(&elf_with_sections(&[".text"])));
    // too short for goblin's hint
    assert!(!cwe_215::is_object_format_image(&[0x7f, 0x45, 0x4c, 0x46]));
    // a multi-architecture container and unknown magic are only peeked at
    assert!(!cwe_215::is_object_format_image(&padded(&[0xca, 0xfe, 0xba, 0xbe])));
    assert!(!cwe_215::is_object_format_image(&padded(b"hello")));
}

#[test]
fn cwe_215_unknown_format_is_not_supported() {
    let mut bytes = b"hello, not a binary".to_vec();
    bytes.resize(32, 0);
    let (logs, warnings) = cwe_215::check_cwe(&bytes);
    assert!(warnings.is_empty());
    assert_eq!(logs.len(), 1);
    assert_eq!(logs[0].level, LogLevel::Info);
    assert_eq!(logs[0].source, Some("CWE215".to_string()));
}

/// What the caller does for input that goes to goblin's format parsers.
fn parse_sections(binary: &[u8]) -> ObjectSections {
    match goblin::Object::parse(binary) {
        Ok(goblin::Object::Elf(elf)) => ObjectSections::Elf(
            elf.section_headers
                .iter()
                .map(|header| elf.shdr_strtab.get_at(header.sh_name).map(|name| name.to_string()))
                .collect(),
        ),
        Ok(_) => ObjectSections::NotElf,
        Err(err) => ObjectSections::ParseError(format!("{err}")),
    }
}

fn elf_with_sections(names: &[&str]) -> Vec<u8> {
    // section name string table
    let mut strtab = vec![0u8];
    let mut offsets = Vec::new();
    for name in [".shstrtab"].iter().chain(names.iter()) {
        offsets.push(strtab.len() as u32);
        strtab.extend_from_slice(name.as_bytes());
        strtab.push(0);
    }
    let strtab_offset = 64u64;
    let mut shoff = strtab_offset + strtab.len() as u64;
    shoff = (shoff + 7) / 8 * 8;
    let shnum = 2 + names.len() as u16;
    let mut bytes = Vec::new();
    bytes.extend_from_slice(&[0x7f, b'E', b'L', b'F', 2, 1, 1, 0, 0, 0, 0, 0, 0, 0, 0, 0]);
    bytes.extend_from_slice(&1u16.to_le_bytes()); // e_type: relocatable
    bytes.extend_from_slice(&62u16.to_le_bytes()); // e_machine: x86_64
    bytes.extend_from_slice(&1u32.to_le_bytes()); // e_version
    bytes.extend_from_slice(&0u64.to_le_bytes()); // e_entry
    bytes.extend_from_slice(&0u64.to_le_bytes()); // e_phoff
    bytes.extend_from_slice(&shoff.to_le_bytes()); // e_shoff
    bytes.extend_from_slice(&0u32.to_le_bytes()); // e_flags
    bytes.extend_from_slice(&64u16.to_le_bytes()); // e_ehsize
    bytes.extend_from_slice(&56u16.to_le_bytes()); // e_phentsize
    bytes.extend_from_slice(&0u16.to_le_bytes()); // e_phnum
    bytes.extend_from_slice(&64u16.to_le_bytes()); // e_shentsize
    bytes.extend_from_slice(&shnum.to_le_bytes()); // e_shnum
    bytes.extend_from_slice(&1u16.to_le_bytes()); // e_shstrndx
    assert_eq!(bytes.len(), 64);
    bytes.extend_from_slice(&strtab);
    while (bytes.len() as u64) < shoff {
        bytes.push(0);
    }
    let section = |name: u32, kind: u32, offset: u64, size: u64| {
        let mut s = Vec::new();
        s.extend_from_slice(&name.to_le_bytes());
        s.extend_from_slice(&kind.to_le_bytes());
        s.extend_from_slice(&0u64.to_le_bytes()); // flags
        s.extend_from_slice(&0u64.to_le_bytes()); // addr
        s.extend_from_slice(&offset.to_le_bytes());
        s.extend_from_slice(&size.to_le_bytes());
        s.extend_from_slice(&0u32.to_le_bytes()); // link
        s.extend_from_slice(&0u32.to_le_bytes()); // info
        s.extend_from_slice(&1u64.to_le_bytes()); // addralign
        s.extend_from_slice(&0u64.to_le_bytes()); // entsize
        s
    };
    bytes.extend(section(0, 0, 0, 0));
    bytes.extend(section(offsets[0], 3, strtab_offset, strtab.len() as u64));
    for k in 0..names.len() {
        bytes.extend(section(offsets[k + 1], 1, strtab_offset, 0));
    }
    bytes
}

#[test]
fn cwe_215_parses_elf_files() {
    let with_debug = elf_with_sections(&[".text", ".debug_line"]);
    assert!(cwe_215::is_object_format_image(&with_debug));
    let (logs, warnings) = cwe_215::check_sections(&parse_sections(&with_debug));
    assert!(logs.is_empty());
    assert_eq!(warnings.len(), 1);
    let (logs, warnings) = cwe_215::check_sections(&parse_sections(&elf_with_sections(&[".text", ".data"])));
    assert!(logs.is_empty());
    assert!(warnings.is_empty());
}

fn warning_at(addresses: &[&str], description: &str) -> CweWarning {
    CweWarning::new("CWE476".to_string(), "0.3".to_string(), description.to_string())
        .addresses(addresses.iter().map(|a| a.to_string()).collect())
}

#[test]
fn cwe_476_keeps_last_warning_per_source() {
    let warnings = vec![
        warning_at(&["0x20"], "first at 0x20"),
        warning_at(&["0x10", "0x30"], "only at 0x10"),
        warning_at(&["0x20", "0x40"], "second at 0x20"),
    ];
    let kept = deduplicate_warnings(warnings);
    assert_eq!(kept.len(), 2);
    assert_eq!(kept[0].description, "only at 0x10");
    assert_eq!(kept[1].description, "second at 0x20");
    let config = cwe_476::Config { symbols: vec!["malloc".to_string()] };
    assert_eq!(config.symbols.len(), 1);
}

fn sample_calls() -> Vec<(String, Tid, String)> {
    vec![
        ("main".to_string(), tid("jmp_main_1", "0x1010"), "strcpy".to_string()),
        ("helper".to_string(), tid("jmp_helper", "0x0110"), "gets".to_string()),
        ("main".to_string(), tid("jmp_main_2", "0x1020"), "strcpy".to_string()),
        ("main".to_string(), tid("jmp_main_1", "0x1010"), "strcpy".to_string()),
    ]
}

#[test]
fn warnings_do_not_depend_on_call_order() {
    let calls = sample_calls();
    let mut permuted = calls.clone();
    permuted.reverse();
    permuted.swap(0, 2);
    assert_eq!(generate_cwe_warnings(calls), generate_cwe_warnings(permuted));
}

#[test]
fn warnings_of_concatenated_calls_are_merged_warnings() {
    let calls = sample_calls();
    let (a, b) = calls.split_at(2);
    let mut merged = generate_cwe_warnings(a.to_vec());
    merged.extend(generate_cwe_warnings(b.to_vec()));
    merged.sort();
    assert_eq!(generate_cwe_warnings(calls), merged);
}

#[test]
fn more_configured_symbols_keep_resolved_ones() {
    let externs = vec![extern_symbol("sym_a", "strcpy"), extern_symbol("sym_b", "gets")];
    let fewer = resolve_symbols(&externs, &vec!["strcpy".to_string()]);
    let more = resolve_symbols(&externs, &vec!["gets".to_string(), "strcpy".to_string()]);
    for (t, n) in fewer.iter() {
        assert!(more.iter().any(|(t2, n2)| t2 == t && n2 == n));
    }
    assert_eq!(more.len(), 2);
}
