//! Eager (non-lazy) linking and deferred-constant behavior: external
//! relocations, the non-lazy pointer table, late linking, and the whole
//! initial-linking sequence.

use guestlink::dyld::{encode_a32_svc, Dyld, HostConstant, LinkError, SVC_RETURN_TO_HOST};
use guestlink::mach_o::{DyldIndirectSymbolInfo, MachO, Section};
use guestlink::mem::{Mem, MutPtr, Ptr};

fn test_mem() -> Mem {
    Mem::with_size(0x100_0000)
}
use guestlink::objc::{ObjC, StaticStrings};

type TestDyld = Dyld<u32, u32>;

fn read_word(mem: &Mem, addr: u32) -> u32 {
    mem.read::<u32, true>(Ptr::from_bits(addr))
}

fn test_objc() -> ObjC {
    ObjC {
        classes: vec![("Banana".to_string(), 0x7000)],
        metaclasses: vec![("Banana".to_string(), 0x7100)],
        constant_string_class: 0x7200,
    }
}

#[test]
fn relocations_link_classes_and_constant_strings() {
    let mut mem = test_mem();
    let mut dyld = TestDyld::new();
    let bin = MachO {
        name: "app".to_string(),
        sections: vec![],
        exported_symbols: vec![],
        external_relocations: vec![
            (0x5000, "_OBJC_CLASS_$_Banana".to_string()),
            (0x5004, "_OBJC_METACLASS_$_Banana".to_string()),
            (0x5008, "___CFConstantStringClassReference".to_string()),
            (0x500c, "_unknown_symbol".to_string()),
            (0x5010, "_OBJC_CLASS_$_Unregistered".to_string()),
        ],
    };
    let bins = vec![bin];
    let constants: Vec<Vec<(String, HostConstant<u32>)>> = vec![];
    let r = dyld.do_non_lazy_linking(&bins[0], &bins, &mut mem, &test_objc(), &constants);
    assert_eq!(r, Ok(()));
    assert_eq!(read_word(&mem, 0x5000), 0x7000);
    assert_eq!(read_word(&mem, 0x5004), 0x7100);
    assert_eq!(read_word(&mem, 0x5008), 0x7200);
    // unhandled names are skipped, not fatal
    assert_eq!(read_word(&mem, 0x500c), 0);
    assert_eq!(read_word(&mem, 0x5010), 0);
}

#[test]
fn relocation_into_null_page_is_a_memory_fault() {
    let mut mem = test_mem();
    let mut dyld = TestDyld::new();
    let bin = MachO {
        name: "app".to_string(),
        sections: vec![],
        exported_symbols: vec![],
        external_relocations: vec![(0x10, "_OBJC_CLASS_$_Banana".to_string())],
    };
    let bins = vec![bin];
    let constants: Vec<Vec<(String, HostConstant<u32>)>> = vec![];
    let r = dyld.do_non_lazy_linking(&bins[0], &bins, &mut mem, &test_objc(), &constants);
    assert_eq!(r, Err(LinkError::MemoryFault));
}

fn nl_bin(addr: u32, symbols: Vec<Option<String>>, exports: Vec<(String, u32)>) -> MachO {
    MachO {
        name: "app".to_string(),
        sections: vec![Section {
            name: "__nl_symbol_ptr".to_string(),
            addr,
            size: 4 * symbols.len() as u32,
            dyld_indirect_symbol_info: Some(DyldIndirectSymbolInfo {
                entry_size: 4,
                indirect_undef_symbols: symbols,
            }),
        }],
        exported_symbols: exports,
        external_relocations: vec![],
    }
}

#[test]
fn non_lazy_pointers_resolve_against_every_binary_and_queue_constants() {
    let mut mem = test_mem();
    let mut dyld = TestDyld::new();
    let app = nl_bin(
        0x6000,
        vec![
            Some("_own_export".to_string()),
            Some("_peer_export".to_string()),
            Some("_kSomeString".to_string()),
            None,
            Some("_totally_unknown".to_string()),
        ],
        vec![("_own_export".to_string(), 0x4100)],
    );
    let peer = MachO {
        name: "lib".to_string(),
        sections: vec![],
        exported_symbols: vec![("_peer_export".to_string(), 0x4200)],
        external_relocations: vec![],
    };
    let bins = vec![app, peer];
    let constants: Vec<Vec<(String, HostConstant<u32>)>> = vec![vec![(
        "_kSomeString".to_string(),
        HostConstant::NSString("hello".to_string()),
    )]];
    let r = dyld.do_non_lazy_linking(&bins[0], &bins, &mut mem, &test_objc(), &constants);
    assert_eq!(r, Ok(()));
    // a binary may reference its own exports and any peer's
    assert_eq!(read_word(&mem, 0x6000), 0x4100);
    assert_eq!(read_word(&mem, 0x6004), 0x4200);
    // the registry constant is deferred, not yet materialized
    assert_eq!(read_word(&mem, 0x6008), 0);
    // unknown and unnamed entries are left as-is
    assert_eq!(read_word(&mem, 0x6010), 0);

    // late linking materializes the queued constant
    let strings = StaticStrings { entries: vec![("hello".to_string(), 0x4300)] };
    let jobs = dyld.do_late_linking(&mut mem, &strings).unwrap();
    assert!(jobs.is_empty());
    let cell = read_word(&mem, 0x6008);
    assert_ne!(cell, 0);
    assert_eq!(read_word(&mem, cell), 0x4300);
}

#[test]
fn late_linking_null_pointer_and_custom_jobs() {
    let mut mem = test_mem();
    let mut dyld = TestDyld::new();
    let t1: MutPtr<guestlink::mem::ConstVoidPtr> = Ptr::from_bits(0x5100);
    let t2: MutPtr<guestlink::mem::ConstVoidPtr> = Ptr::from_bits(0x5104);
    dyld.constants_to_link_later.push((t1, HostConstant::NullPtr));
    dyld.constants_to_link_later.push((t2, HostConstant::Custom(42)));
    let strings = StaticStrings { entries: vec![] };
    let jobs = dyld.do_late_linking(&mut mem, &strings).unwrap();
    // the null-pointer constant got a cell holding zero
    let cell = read_word(&mem, 0x5100);
    assert_ne!(cell, 0);
    assert_eq!(read_word(&mem, cell), 0);
    // the custom constant is handed back for the embedder to materialize
    assert_eq!(jobs.len(), 1);
    assert_eq!(jobs[0].0.to_bits(), 0x5104);
    assert_eq!(jobs[0].1, 42);
    // the queue was consumed exactly once
    assert!(dyld.constants_to_link_later.is_empty());
}

#[test]
fn late_linking_with_exhausted_guest_memory_fails() {
    let mut mem = test_mem();
    let everything = mem.allocate(0xff_f000);
    let mut dyld = TestDyld::new();
    let t: MutPtr<guestlink::mem::ConstVoidPtr> = Ptr::from_bits(0x5100);
    dyld.constants_to_link_later.push((t, HostConstant::NullPtr));
    let strings = StaticStrings { entries: vec![] };
    let r = dyld.do_late_linking(&mut mem, &strings);
    assert!(matches!(r, Err(LinkError::OutOfGuestMemory)));
    mem.free(everything);
}

#[test]
fn initial_linking_creates_the_return_to_host_routine_and_links_all() {
    let mut mem = test_mem();
    let mut dyld = TestDyld::new();
    let stub_addr = 0x2000;
    let plain = [0xe59f_c000, 0xe59c_f000];
    for (i, &w) in plain.iter().enumerate() {
        mem.write::<u32>(Ptr::from_bits(stub_addr + 4 * i as u32), w);
    }
    let app = MachO {
        name: "app".to_string(),
        sections: vec![Section {
            name: "__symbol_stub4".to_string(),
            addr: stub_addr,
            size: 12,
            dyld_indirect_symbol_info: Some(DyldIndirectSymbolInfo {
                entry_size: 12,
                indirect_undef_symbols: vec![Some("_foo".to_string())],
            }),
        }],
        exported_symbols: vec![],
        external_relocations: vec![(0x5000, "_OBJC_CLASS_$_Banana".to_string())],
    };
    let bins = vec![app];
    let constants: Vec<Vec<(String, HostConstant<u32>)>> = vec![];
    let r = dyld.do_initial_linking(&bins, &mut mem, &test_objc(), &constants);
    assert_eq!(r, Ok(()));
    // the return-to-host routine traps to the host, then guards
    let routine = dyld.return_to_host_routine();
    assert!(!routine.is_thumb());
    let ra = routine.addr_without_thumb_bit();
    assert_eq!(read_word(&mem, ra), encode_a32_svc(SVC_RETURN_TO_HOST));
    assert_eq!(read_word(&mem, ra + 4), 0xe7ff_defe);
    // stubs were installed and eager linking ran
    assert_eq!(read_word(&mem, stub_addr), encode_a32_svc(0));
    assert_eq!(read_word(&mem, 0x5000), 0x7000);
}
