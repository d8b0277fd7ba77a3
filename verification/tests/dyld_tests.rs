//! Dynamic-linker behavior: stub setup and verification, lazy linking to
//! host functions and to peer exports, SVC dispatch, trampoline
//! synthesis, and breakpoints.

use guestlink::cpu::Cpu;
use guestlink::dyld::{encode_a32_ret, encode_a32_svc, encode_a32_trap, encode_t32_svc, search_lists, Dyld, LinkError, SVC_BREAKPOINT, SVC_LAZY_LINK, SVC_LINKED_FUNCTIONS_BASE, SVC_RETURN_TO_HOST};
use guestlink::mach_o::{DyldIndirectSymbolInfo, MachO, Section};
use guestlink::mem::{Mem, MutPtr, Ptr};

fn test_mem() -> Mem {
    Mem::with_size(0x100_0000)
}

type TestDyld = Dyld<u32, u32>;

const PLAIN: [u32; 2] = [0xe59f_c000, 0xe59c_f000];
const PIC: [u32; 3] = [0xe59f_c004, 0xe08f_c00c, 0xe59c_f000];
const RET: u32 = 0xe12f_ff1e;
const TRAP: u32 = 0xe7ff_defe;

fn write_words(mem: &mut Mem, addr: u32, words: &[u32]) {
    for (i, &w) in words.iter().enumerate() {
        let p: MutPtr<u32> = Ptr::from_bits(addr + 4 * i as u32);
        mem.write(p, w);
    }
}

fn read_word(mem: &Mem, addr: u32) -> u32 {
    mem.read::<u32, true>(Ptr::from_bits(addr))
}

fn stub_bin(name: &str, section_name: &str, addr: u32, entry_size: u32, symbols: Vec<Option<String>>) -> MachO {
    let size = entry_size * symbols.len() as u32;
    MachO {
        name: name.to_string(),
        sections: vec![Section {
            name: section_name.to_string(),
            addr,
            size,
            dyld_indirect_symbol_info: Some(DyldIndirectSymbolInfo {
                entry_size,
                indirect_undef_symbols: symbols,
            }),
        }],
        exported_symbols: vec![],
        external_relocations: vec![],
    }
}

fn export_bin(name: &str, exports: Vec<(String, u32)>) -> MachO {
    MachO {
        name: name.to_string(),
        sections: vec![],
        exported_symbols: exports,
        external_relocations: vec![],
    }
}

#[test]
fn instruction_encodings() {
    assert_eq!(encode_a32_svc(0), 0xef00_0000);
    assert_eq!(encode_a32_svc(3), 0xef00_0003);
    assert_eq!(encode_t32_svc(2), 0xdf02);
    assert_eq!(encode_a32_ret(), 0xe12f_ff1e);
    assert_eq!(encode_a32_trap(), 0xe7ff_defe);
}

#[test]
fn search_lists_finds_first_match_in_list_order() {
    let lists: Vec<Vec<(String, u32)>> = vec![
        vec![("_a".to_string(), 1), ("_b".to_string(), 2)],
        vec![("_b".to_string(), 3), ("_c".to_string(), 4)],
    ];
    assert_eq!(search_lists(&lists, "_a"), Some(&1));
    assert_eq!(search_lists(&lists, "_b"), Some(&2));
    assert_eq!(search_lists(&lists, "_c"), Some(&4));
    assert_eq!(search_lists(&lists, "_d"), None);
}

#[test]
fn setup_rewrites_plain_stubs_to_trap_form() {
    let mut mem = test_mem();
    let stub_addr = 0x2000;
    write_words(&mut mem, stub_addr, &PLAIN);
    write_words(&mut mem, stub_addr + 8, &[0x3000]); // la table address
    let bin = stub_bin("app", "__symbol_stub4", stub_addr, 12, vec![Some("_foo".to_string())]);
    let dyld = TestDyld::new();
    assert_eq!(dyld.setup_lazy_linking(&bin, &mut mem), Ok(()));
    assert_eq!(read_word(&mem, stub_addr), encode_a32_svc(SVC_LAZY_LINK));
    assert_eq!(read_word(&mem, stub_addr + 4), RET);
    // the table word is left intact for a later real link
    assert_eq!(read_word(&mem, stub_addr + 8), 0x3000);
}

#[test]
fn setup_rewrites_pic_stubs_and_guards_them() {
    let mut mem = test_mem();
    let stub_addr = 0x2000;
    write_words(&mut mem, stub_addr, &PIC);
    write_words(&mut mem, stub_addr + 12, &[0xff8]); // pc-relative offset
    let bin = stub_bin("app", "__picsymbolstub4", stub_addr, 16, vec![Some("_foo".to_string())]);
    let dyld = TestDyld::new();
    assert_eq!(dyld.setup_lazy_linking(&bin, &mut mem), Ok(()));
    assert_eq!(read_word(&mem, stub_addr), encode_a32_svc(SVC_LAZY_LINK));
    assert_eq!(read_word(&mem, stub_addr + 4), RET);
    assert_eq!(read_word(&mem, stub_addr + 8), TRAP);
    assert_eq!(read_word(&mem, stub_addr + 12), 0xff8);
}

#[test]
fn setup_without_stub_table_does_nothing() {
    let mut mem = test_mem();
    let bin = export_bin("lib", vec![]);
    let dyld = TestDyld::new();
    assert_eq!(dyld.setup_lazy_linking(&bin, &mut mem), Ok(()));
}

#[test]
fn setup_rejects_template_mismatch() {
    let mut mem = test_mem();
    let stub_addr = 0x2000;
    write_words(&mut mem, stub_addr, &[0x1234_5678, 0x9abc_def0]);
    let bin = stub_bin("app", "__symbol_stub4", stub_addr, 12, vec![Some("_foo".to_string())]);
    let dyld = TestDyld::new();
    assert_eq!(dyld.setup_lazy_linking(&bin, &mut mem), Err(LinkError::ConfigurationFault));
    // nothing was patched
    assert_eq!(read_word(&mem, stub_addr), 0x1234_5678);
}

#[test]
fn setup_rejects_unknown_entry_size() {
    let mut mem = test_mem();
    let bin = stub_bin("app", "__symbol_stub4", 0x2000, 8, vec![Some("_foo".to_string())]);
    let dyld = TestDyld::new();
    assert_eq!(dyld.setup_lazy_linking(&bin, &mut mem), Err(LinkError::ConfigurationFault));
}

#[test]
fn setup_rejects_out_of_bounds_stub_table() {
    let mut mem = test_mem();
    let bin = stub_bin("app", "__symbol_stub4", 0xffff_fff8, 12, vec![Some("_foo".to_string())]);
    let dyld = TestDyld::new();
    assert_eq!(dyld.setup_lazy_linking(&bin, &mut mem), Err(LinkError::MemoryFault));
}

fn prepared_plain_stub(mem: &mut Mem, stub_addr: u32, la_table: u32, symbol: &str) -> MachO {
    write_words(mem, stub_addr, &PLAIN);
    write_words(mem, stub_addr + 8, &[la_table]);
    let bin = stub_bin("app", "__symbol_stub4", stub_addr, 12, vec![Some(symbol.to_string())]);
    let dyld = TestDyld::new();
    dyld.setup_lazy_linking(&bin, mem).unwrap();
    bin
}

#[test]
fn lazy_link_to_host_function_patches_stub_and_returns_it() {
    let mut mem = test_mem();
    let mut cpu = Cpu::new();
    let stub_addr = 0x2000;
    let bins = vec![prepared_plain_stub(&mut mem, stub_addr, 0x3000, "_foo")];
    let functions: Vec<Vec<(String, u32)>> = vec![vec![("_foo".to_string(), 77)]];
    let mut dyld = TestDyld::new();

    let r = dyld.get_svc_handler(&bins, &mut mem, &mut cpu, stub_addr, SVC_LAZY_LINK, &functions);
    assert_eq!(r, Ok(Some(77)));
    // first instruction: svc with the first fresh id; second: untouched return
    assert_eq!(read_word(&mem, stub_addr), encode_a32_svc(SVC_LINKED_FUNCTIONS_BASE));
    assert_eq!(read_word(&mem, stub_addr + 4), RET);
    // exactly the patched bytes were queued for invalidation
    assert_eq!(cpu.take_invalidations(), vec![(stub_addr, 4)]);

    // a second call through the now-patched stub raises the assigned id,
    // which dispatches straight to the host function with no relinking
    let before = read_word(&mem, stub_addr);
    let r2 = dyld.get_svc_handler(&bins, &mut mem, &mut cpu, stub_addr, SVC_LINKED_FUNCTIONS_BASE, &functions);
    assert_eq!(r2, Ok(Some(77)));
    assert_eq!(read_word(&mem, stub_addr), before);
    assert_eq!(cpu.take_invalidations(), vec![]);
}

#[test]
fn lazy_link_to_peer_export_restores_plain_stub() {
    let mut mem = test_mem();
    let mut cpu = Cpu::new();
    let stub_addr = 0x2000;
    let la_table = 0x3000;
    let target = 0x4000;
    let app = prepared_plain_stub(&mut mem, stub_addr, la_table, "_shared");
    let bins = vec![app, export_bin("lib", vec![("_shared".to_string(), target)])];
    let functions: Vec<Vec<(String, u32)>> = vec![];
    let mut dyld = TestDyld::new();

    let r = dyld.get_svc_handler(&bins, &mut mem, &mut cpu, stub_addr, SVC_LAZY_LINK, &functions);
    // None: the caller must resume execution at the stub's address
    assert_eq!(r, Ok(None));
    // the stub is back in its vendor template form
    assert_eq!(read_word(&mem, stub_addr), PLAIN[0]);
    assert_eq!(read_word(&mem, stub_addr + 4), PLAIN[1]);
    assert_eq!(read_word(&mem, stub_addr + 8), la_table);
    // and the table cell it reads now holds the export's address
    assert_eq!(read_word(&mem, la_table), target);
    assert_eq!(cpu.take_invalidations(), vec![(stub_addr, 8)]);
}

#[test]
fn lazy_link_to_peer_export_restores_pic_stub() {
    let mut mem = test_mem();
    let mut cpu = Cpu::new();
    let stub_addr = 0x2000;
    let offset = 0xff8; // cell address = stub_addr + offset + 8 = 0x3000
    let target = 0x4abc;
    write_words(&mut mem, stub_addr, &PIC);
    write_words(&mut mem, stub_addr + 12, &[offset]);
    let app = stub_bin("app", "__picsymbolstub4", stub_addr, 16, vec![Some("_shared".to_string())]);
    let dyld0 = TestDyld::new();
    dyld0.setup_lazy_linking(&app, &mut mem).unwrap();
    let bins = vec![app, export_bin("lib", vec![("_shared".to_string(), target)])];
    let functions: Vec<Vec<(String, u32)>> = vec![];
    let mut dyld = TestDyld::new();

    let r = dyld.get_svc_handler(&bins, &mut mem, &mut cpu, stub_addr, SVC_LAZY_LINK, &functions);
    assert_eq!(r, Ok(None));
    assert_eq!(read_word(&mem, stub_addr), PIC[0]);
    assert_eq!(read_word(&mem, stub_addr + 4), PIC[1]);
    assert_eq!(read_word(&mem, stub_addr + 8), PIC[2]);
    assert_eq!(read_word(&mem, stub_addr + 12), offset);
    // the patched offset plus the stub's address plus eight names the cell
    assert_eq!(read_word(&mem, stub_addr + offset + 8), target);
    assert_eq!(cpu.take_invalidations(), vec![(stub_addr, 12)]);
}

#[test]
fn lazy_link_unresolved_symbol_is_fatal_and_names_it() {
    let mut mem = test_mem();
    let mut cpu = Cpu::new();
    let stub_addr = 0x2000;
    let bins = vec![prepared_plain_stub(&mut mem, stub_addr, 0x3000, "_nowhere")];
    let functions: Vec<Vec<(String, u32)>> = vec![];
    let mut dyld = TestDyld::new();
    let r = dyld.get_svc_handler(&bins, &mut mem, &mut cpu, stub_addr, SVC_LAZY_LINK, &functions);
    assert_eq!(r, Err(LinkError::UnresolvedSymbol("_nowhere".to_string())));
}

#[test]
fn lazy_link_outside_any_stub_table_is_a_configuration_fault() {
    let mut mem = test_mem();
    let mut cpu = Cpu::new();
    let bins = vec![export_bin("lib", vec![])];
    let functions: Vec<Vec<(String, u32)>> = vec![];
    let mut dyld = TestDyld::new();
    let r = dyld.get_svc_handler(&bins, &mut mem, &mut cpu, 0x2000, SVC_LAZY_LINK, &functions);
    assert_eq!(r, Err(LinkError::ConfigurationFault));
}

#[test]
fn svc_dispatch_handles_reserved_and_unknown_ids() {
    let mut mem = test_mem();
    let mut cpu = Cpu::new();
    let bins: Vec<MachO> = vec![];
    let functions: Vec<Vec<(String, u32)>> = vec![];
    let mut dyld = TestDyld::new();
    let r = dyld.get_svc_handler(&bins, &mut mem, &mut cpu, 0, SVC_RETURN_TO_HOST, &functions);
    assert_eq!(r, Err(LinkError::UnexpectedSvc));
    let r = dyld.get_svc_handler(&bins, &mut mem, &mut cpu, 0, SVC_BREAKPOINT, &functions);
    assert_eq!(r, Err(LinkError::Breakpoint));
    let r = dyld.get_svc_handler(&bins, &mut mem, &mut cpu, 0, SVC_LINKED_FUNCTIONS_BASE, &functions);
    assert_eq!(r, Err(LinkError::UnexpectedSvc));
}

#[test]
fn create_proc_address_twice_gives_distinct_trampolines() {
    let mut mem = test_mem();
    let mut cpu = Cpu::new();
    let functions: Vec<Vec<(String, u32)>> = vec![vec![("_glBanana".to_string(), 9)]];
    let mut dyld = TestDyld::new();

    let g1 = dyld.create_proc_address(&mut mem, &mut cpu, "_glBanana", &functions).unwrap();
    let g2 = dyld.create_proc_address(&mut mem, &mut cpu, "_glBanana", &functions).unwrap();
    assert_ne!(g1.addr_with_thumb_bit(), g2.addr_with_thumb_bit());
    // each trampoline traps on its own fresh id, then returns
    let a1 = g1.addr_without_thumb_bit();
    let a2 = g2.addr_without_thumb_bit();
    assert_eq!(read_word(&mem, a1), encode_a32_svc(SVC_LINKED_FUNCTIONS_BASE));
    assert_eq!(read_word(&mem, a1 + 4), RET);
    assert_eq!(read_word(&mem, a2), encode_a32_svc(SVC_LINKED_FUNCTIONS_BASE + 1));
    assert_eq!(read_word(&mem, a2 + 4), RET);
    // both ids dispatch to the same host function
    let bins: Vec<MachO> = vec![];
    assert_eq!(
        dyld.get_svc_handler(&bins, &mut mem, &mut cpu, 0, SVC_LINKED_FUNCTIONS_BASE, &functions),
        Ok(Some(9))
    );
    assert_eq!(
        dyld.get_svc_handler(&bins, &mut mem, &mut cpu, 0, SVC_LINKED_FUNCTIONS_BASE + 1, &functions),
        Ok(Some(9))
    );
}

#[test]
fn create_proc_address_unknown_symbol_changes_nothing() {
    let mut mem = test_mem();
    let mut cpu = Cpu::new();
    let functions: Vec<Vec<(String, u32)>> = vec![vec![("_known".to_string(), 9)]];
    let mut dyld = TestDyld::new();
    assert_eq!(dyld.create_proc_address(&mut mem, &mut cpu, "_unknown", &functions), Err(()));
    // the id counter is untouched: the next request still gets the base id
    let g = dyld.create_proc_address(&mut mem, &mut cpu, "_known", &functions).unwrap();
    assert_eq!(read_word(&mem, g.addr_without_thumb_bit()), encode_a32_svc(SVC_LINKED_FUNCTIONS_BASE));
}

#[test]
fn set_breakpoint_arm_and_thumb() {
    let mut mem = test_mem();
    let mut dyld = TestDyld::new();
    assert_eq!(dyld.set_breakpoint(&mut mem, 0x2000), Ok(()));
    assert_eq!(read_word(&mem, 0x2000), encode_a32_svc(SVC_BREAKPOINT));
    assert_eq!(dyld.set_breakpoint(&mut mem, 0x3001), Ok(()));
    assert_eq!(mem.read::<u16, true>(Ptr::from_bits(0x3000)), encode_t32_svc(2));
}

#[test]
fn set_breakpoint_in_null_page_is_a_memory_fault() {
    let mut mem = test_mem();
    let mut dyld = TestDyld::new();
    assert_eq!(dyld.set_breakpoint(&mut mem, 0x10), Err(LinkError::MemoryFault));
}
